//! Predicates on decoded records, and the paths and references in them.
use crate::formid::{decoded_formid, is_formid_str};
use crate::json::{key_index, lemma_key_index, views, Entries, Json, Value};
use crate::order::{join_text, joined, law_joined, texts_increase};
use crate::text::{
    concat, decimal, decimal_string, eq_nocase, lowercase, opt_slice, split_all, split_chars,
    str_eq, str_eq_nocase, texts, trim_chars, trimmed,
};
use crate::wildcard::{contains_nocase, holds_part};
use std::collections::BTreeMap;
use vstd::prelude::*;
use vstd::std_specs::btree::*;

verus! {

/// Comparison operator for a filter.
#[derive(Debug, Clone, Copy, PartialEq, Eq, Structural)]
pub enum FilterOp {
    /// Whether the path leads to a value, even `null`.
    Exists,
    /// Equality of numbers where both sides read as numbers, and otherwise of
    /// texts, whatever their case.
    Eq,
    /// Whether the text holds another, whatever their case; looks into objects
    /// and arrays.
    Contains,
    Gt,
    Lt,
    Gte,
    Lte,
}

/// Which fields a search matches against.
#[derive(Debug, Clone, Copy, PartialEq, Eq, Structural)]
pub enum SearchField {
    /// The EditorID.
    Edid,
    /// The display name and the description.
    Name,
    /// All of them.
    Both,
}

/// How many items a limit stands for: none for zero.
pub open spec fn taken(limit: int) -> int {
    if limit == 0 {
        usize::MAX as int
    } else {
        limit
    }
}

/// The number of items that `limit` lets through.
pub fn effective_take(limit: usize) -> (n: usize)
    ensures
        n == taken(limit as int),
{
    if limit == 0 {
        usize::MAX
    } else {
        limit
    }
}

// ── Numbers ────────────────────────────────────────────────────────────────
/// What filters need to know of numbers. Keys order and equate numbers as
/// their values do.
#[derive(Debug)]
pub struct Numbers {
    /// How floats read, by their bit patterns.
    pub shown: BTreeMap<u32, String>,
    /// The keys of floats, by their bit patterns.
    pub floats: BTreeMap<u32, i64>,
    /// The keys of integers.
    pub integers: BTreeMap<i128, i64>,
    /// The texts that read as numbers, with their keys.
    pub texts: Vec<(String, i64)>,
}

/// The first key that `list` gives to a text.
pub open spec fn key_of_text(list: Seq<(String, i64)>, s: Seq<char>) -> Option<i64>
    decreases list.len(),
{
    if list.len() == 0 {
        None
    } else if list[0].0@ == s {
        Some(list[0].1)
    } else {
        key_of_text(list.drop_first(), s)
    }
}

impl Numbers {
    /// How a float reads.
    pub open spec fn reads(&self, bits: u32) -> Seq<char> {
        if self.shown@.contains_key(bits) {
            self.shown@[bits]@
        } else {
            Seq::empty()
        }
    }

    /// The key of a text that reads as a number.
    pub open spec fn key(&self, s: Seq<char>) -> Option<i64> {
        key_of_text(self.texts@, s)
    }

    /// The key of a value that is a number, or a text that reads as one.
    pub open spec fn value_key(&self, v: Json) -> Option<i64> {
        match v {
            Json::Int(n) => if i128::MIN <= n <= i128::MAX && self.integers@.contains_key(
                n as i128,
            ) {
                Some(self.integers@[n as i128])
            } else {
                None
            },
            Json::Float(b) => if self.floats@.contains_key(b) {
                Some(self.floats@[b])
            } else {
                None
            },
            Json::Str(s) => self.key(s),
            _ => None,
        }
    }

    /// How a float reads.
    pub fn float_text(&self, bits: u32) -> (r: String)
        ensures
            r@ == self.reads(bits),
    {
        match self.shown.get(&bits) {
            Some(s) => s.as_str().to_owned(),
            None => {
                let r = String::new();
                assert(r@ =~= Seq::<char>::empty());
                r
            },
        }
    }

    /// The key of a text that reads as a number.
    pub fn text_key(&self, s: &str) -> (r: Option<i64>)
        ensures
            r == self.key(s@),
    {
        let mut i: usize = 0;
        assert(self.texts@.skip(0) =~= self.texts@);
        while i < self.texts.len()
            invariant
                i <= self.texts.len(),
                self.key(s@) == key_of_text(self.texts@.skip(i as int), s@),
            decreases self.texts.len() - i,
        {
            if str_eq(&self.texts[i].0, s) {
                return Some(self.texts[i].1);
            }
            assert(self.texts@.skip(i as int).drop_first() =~= self.texts@.skip(i + 1));
            i += 1;
        }
        None
    }

    /// The key of a value that is a number, or a text that reads as one.
    pub fn number_key(&self, v: &Value) -> (r: Option<i64>)
        ensures
            r == self.value_key(v@),
    {
        match v {
            Value::Int(n) => match self.integers.get(n) {
                Some(k) => Some(*k),
                None => None,
            },
            Value::Float(b) => match self.floats.get(b) {
                Some(k) => Some(*k),
                None => None,
            },
            Value::String(s) => self.text_key(s),
            _ => None,
        }
    }
}

/// Whether a value is a scalar.
pub open spec fn is_scalar(v: Json) -> bool {
    v is Null || v is Bool || v is Int || v is Float || v is Str
}

/// The scalars in a value, after `acc`.
pub open spec fn scalars(v: Json, acc: Seq<Json>) -> Seq<Json>
    decreases v, 0nat,
{
    match v {
        Json::Arr(items) => item_scalars(items, 0, acc),
        Json::Obj(o) => entry_scalars(o, 0, acc),
        _ => if is_scalar(v) {
            acc.push(v)
        } else {
            acc
        },
    }
}

/// The scalars in the items from `i` on, after `acc`.
pub open spec fn item_scalars(items: Seq<Json>, i: nat, acc: Seq<Json>) -> Seq<Json>
    decreases items, items.len() - i,
{
    if i >= items.len() {
        acc
    } else {
        item_scalars(items, i + 1, scalars(items[i as int], acc))
    }
}

/// The scalars in the entries from `i` on, after `acc`.
pub open spec fn entry_scalars(o: Entries, i: nat, acc: Seq<Json>) -> Seq<Json>
    decreases o, o.len() - i,
{
    if i >= o.len() {
        acc
    } else {
        entry_scalars(o, i + 1, scalars(o[i as int].1, acc))
    }
}

/// Collects the scalars of a value, of which a filter needs to know the
/// numbers.
#[verifier::loop_isolation(false)]
pub fn collect_scalars(v: &Value, out: &mut Vec<Value>)
    ensures
        views(final(out)@) == scalars(v@, views(old(out)@)),
    decreases v,
{
    match v {
        Value::Array(items) => {
            let mut i: usize = 0;
            while i < items.len()
                invariant
                    i <= items.len(),
                    item_scalars(views(items@), 0, views(old(out)@)) == item_scalars(
                        views(items@),
                        i as nat,
                        views(out@),
                    ),
                decreases items.len() - i,
            {
                assert(views(items@)[i as int] == items@[i as int]@);
                collect_scalars(&items[i], out);
                i += 1;
            }
        },
        Value::Object(o) => {
            let mut i: usize = 0;
            while i < o.entries.len()
                invariant
                    i <= o.entries.len(),
                    entry_scalars(o@, 0, views(old(out)@)) == entry_scalars(
                        o@,
                        i as nat,
                        views(out@),
                    ),
                decreases o.entries.len() - i,
            {
                assert(o@[i as int].1 == o.entries@[i as int].1@);
                collect_scalars(&o.entries[i].1, out);
                i += 1;
            }
        },
        _ => {
            let scalar = match v {
                Value::Null => true,
                Value::Bool(_) => true,
                Value::Int(_) => true,
                Value::Float(_) => true,
                Value::String(_) => true,
                _ => false,
            };
            if scalar {
                let ghost before = views(out@);
                out.push(v.copy());
                assert(views(out@) =~= before.push(v@));
            }
        },
    }
}

// ── Scalars ────────────────────────────────────────────────────────────────
/// How a scalar reads.
pub open spec fn scalar_text(v: Json, nums: Numbers) -> Option<Seq<char>> {
    match v {
        Json::Str(s) => Some(s),
        Json::Int(n) => Some(decimal(n)),
        Json::Float(b) => Some(nums.reads(b)),
        Json::Bool(b) => Some(if b {
            "true"@
        } else {
            "false"@
        }),
        Json::Null => Some("null"@),
        _ => None,
    }
}

/// How a scalar reads; nothing for a container.
pub fn stringify_scalar(v: &Value, nums: &Numbers) -> (r: Option<String>)
    ensures
        crate::schema::opt_text(r) == scalar_text(v@, *nums),
{
    match v {
        Value::String(s) => Some(s.as_str().to_owned()),
        Value::Int(n) => Some(decimal_string(*n)),
        Value::Float(b) => Some(nums.float_text(*b)),
        Value::Bool(b) => if *b {
            Some("true".to_owned())
        } else {
            Some("false".to_owned())
        },
        Value::Null => Some("null".to_owned()),
        _ => None,
    }
}

/// Equality of a scalar with a text: of numbers where both read as numbers,
/// and otherwise of their letters without regard to case.
pub open spec fn eq_holds(v: Json, value: Option<Seq<char>>, nums: Numbers) -> bool {
    match (value, scalar_text(v, nums)) {
        (Some(want), Some(s)) => if nums.value_key(v) is Some && nums.key(want)
            is Some {
            nums.value_key(v) == nums.key(want)
        } else {
            eq_nocase(s, want)
        },
        _ => false,
    }
}

/// Whether a scalar equals a text.
pub fn eq_matches(current: &Value, value: Option<&str>, nums: &Numbers) -> (r: bool)
    ensures
        r == eq_holds(current@, opt_slice(value), *nums),
{
    let want: &str = match value {
        Some(w) => w,
        None => {
            return false;
        },
    };
    let s: String = match stringify_scalar(current, nums) {
        Some(s) => s,
        None => {
            return false;
        },
    };
    if let Some(a) = nums.number_key(current) {
        if let Some(b) = nums.text_key(want) {
            return a == b;
        }
    }
    str_eq_nocase(&s, want)
}

/// Whether two order keys compare as an operator asks.
pub open spec fn keys_compare(op: FilterOp, a: i64, b: i64) -> bool {
    match op {
        FilterOp::Gt => a > b,
        FilterOp::Lt => a < b,
        FilterOp::Gte => a >= b,
        FilterOp::Lte => a <= b,
        _ => false,
    }
}

/// Whether a number, or a text that reads as one, compares with a text that
/// reads as one.
pub open spec fn numeric_holds(
    v: Json,
    op: FilterOp,
    value: Option<Seq<char>>,
    nums: Numbers,
) -> bool {
    match value {
        Some(want) => match (nums.value_key(v), nums.key(want)) {
            (Some(a), Some(b)) => keys_compare(op, a, b),
            _ => false,
        },
        None => false,
    }
}

/// Whether a number compares with a text.
pub fn numeric_matches(current: &Value, op: FilterOp, value: Option<&str>, nums: &Numbers) -> (r:
    bool)
    ensures
        r == numeric_holds(current@, op, opt_slice(value), *nums),
{
    let want: &str = match value {
        Some(w) => w,
        None => {
            return false;
        },
    };
    let b: i64 = match nums.text_key(want) {
        Some(b) => b,
        None => {
            return false;
        },
    };
    let a: i64 = match nums.number_key(current) {
        Some(a) => a,
        None => {
            return false;
        },
    };
    match op {
        FilterOp::Gt => a > b,
        FilterOp::Lt => a < b,
        FilterOp::Gte => a >= b,
        FilterOp::Lte => a <= b,
        _ => false,
    }
}

/// Whether a scalar satisfies an operator; a container never does.
pub open spec fn value_holds(
    v: Json,
    op: FilterOp,
    value: Option<Seq<char>>,
    nums: Numbers,
) -> bool {
    match scalar_text(v, nums) {
        None => false,
        Some(s) => match op {
            FilterOp::Exists => true,
            FilterOp::Eq => eq_holds(v, value, nums),
            FilterOp::Contains => match value {
                Some(part) => holds_part(lowercase(s), lowercase(part)),
                None => false,
            },
            _ => numeric_holds(v, op, value, nums),
        },
    }
}

/// Whether a scalar satisfies an operator.
pub fn value_matches(current: &Value, op: FilterOp, value: Option<&str>, nums: &Numbers) -> (r:
    bool)
    ensures
        r == value_holds(current@, op, opt_slice(value), *nums),
{
    match stringify_scalar(current, nums) {
        None => false,
        Some(s) => match op {
            FilterOp::Exists => true,
            FilterOp::Eq => eq_matches(current, value, nums),
            FilterOp::Contains => match value {
                Some(part) => contains_nocase(&s, part),
                None => false,
            },
            _ => numeric_matches(current, op, value, nums),
        },
    }
}

// ── Containers ─────────────────────────────────────────────────────────────
/// Whether a value anywhere in `v` satisfies an operator.
pub open spec fn deep_holds(
    v: Json,
    op: FilterOp,
    value: Option<Seq<char>>,
    nums: Numbers,
) -> bool
    decreases v, 0nat,
{
    value_holds(v, op, value, nums) || match v {
        Json::Obj(o) => entry_holds(o, 0, op, value, nums),
        Json::Arr(items) => item_holds(items, 0, op, value, nums),
        _ => false,
    }
}

/// Whether a value in the items from `i` on satisfies an operator.
pub open spec fn item_holds(
    items: Seq<Json>,
    i: nat,
    op: FilterOp,
    value: Option<Seq<char>>,
    nums: Numbers,
) -> bool
    decreases items, items.len() - i,
{
    i < items.len() && (deep_holds(items[i as int], op, value, nums) || item_holds(
        items,
        i + 1,
        op,
        value,
        nums,
    ))
}

/// Whether a value in the entries from `i` on satisfies an operator.
pub open spec fn entry_holds(
    o: Entries,
    i: nat,
    op: FilterOp,
    value: Option<Seq<char>>,
    nums: Numbers,
) -> bool
    decreases o, o.len() - i,
{
    i < o.len() && (deep_holds(o[i as int].1, op, value, nums) || entry_holds(
        o,
        i + 1,
        op,
        value,
        nums,
    ))
}

/// Whether a value anywhere in `v` satisfies an operator.
#[verifier::loop_isolation(false)]
pub fn deep_scan_matches(v: &Value, op: FilterOp, value: Option<&str>, nums: &Numbers) -> (r: bool)
    ensures
        r == deep_holds(v@, op, opt_slice(value), *nums),
    decreases v,
{
    if value_matches(v, op, value, nums) {
        return true;
    }
    match v {
        Value::Array(items) => {
            let mut i: usize = 0;
            while i < items.len()
                invariant
                    i <= items.len(),
                    item_holds(views(items@), 0, op, opt_slice(value), *nums) == item_holds(
                        views(items@),
                        i as nat,
                        op,
                        opt_slice(value),
                        *nums,
                    ),
                decreases items.len() - i,
            {
                assert(views(items@)[i as int] == items@[i as int]@);
                if deep_scan_matches(&items[i], op, value, nums) {
                    return true;
                }
                i += 1;
            }
            false
        },
        Value::Object(o) => {
            let mut i: usize = 0;
            while i < o.entries.len()
                invariant
                    i <= o.entries.len(),
                    entry_holds(o@, 0, op, opt_slice(value), *nums) == entry_holds(
                        o@,
                        i as nat,
                        op,
                        opt_slice(value),
                        *nums,
                    ),
                decreases o.entries.len() - i,
            {
                assert(o@[i as int].1 == o.entries@[i as int].1@);
                if deep_scan_matches(&o.entries[i].1, op, value, nums) {
                    return true;
                }
                i += 1;
            }
            false
        },
        _ => false,
    }
}

/// Whether the value at the end of a path satisfies an operator.
pub open spec fn op_holds(v: Json, op: FilterOp, value: Option<Seq<char>>, nums: Numbers) -> bool {
    match op {
        FilterOp::Exists => true,
        FilterOp::Contains => deep_holds(v, op, value, nums),
        _ => value_holds(v, op, value, nums),
    }
}

/// Whether the value at the end of a path satisfies an operator.
pub fn op_matches(current: &Value, op: FilterOp, value: Option<&str>, nums: &Numbers) -> (r: bool)
    ensures
        r == op_holds(current@, op, opt_slice(value), *nums),
{
    match op {
        FilterOp::Exists => true,
        FilterOp::Contains => deep_scan_matches(current, op, value, nums),
        _ => value_matches(current, op, value, nums),
    }
}

/// Whether the path leads from `v` to a value that satisfies an operator; the
/// segment `[]` leads to every element of an array.
pub open spec fn path_holds(
    v: Json,
    path: Seq<Seq<char>>,
    op: FilterOp,
    value: Option<Seq<char>>,
    nums: Numbers,
) -> bool
    decreases path.len(), 0nat,
{
    if path.len() == 0 {
        op_holds(v, op, value, nums)
    } else if path[0] == "[]"@ {
        match v {
            Json::Arr(items) => some_path_holds(items, 0, path.drop_first(), op, value, nums),
            _ => false,
        }
    } else {
        match v {
            Json::Obj(o) => {
                let i = key_index(o, path[0]);
                0 <= i < o.len() && path_holds(o[i].1, path.drop_first(), op, value, nums)
            },
            _ => false,
        }
    }
}

/// Whether the path leads from one of the items from `i` on to a value that
/// satisfies an operator.
pub open spec fn some_path_holds(
    items: Seq<Json>,
    i: nat,
    path: Seq<Seq<char>>,
    op: FilterOp,
    value: Option<Seq<char>>,
    nums: Numbers,
) -> bool
    decreases path.len(), 1nat, items.len() - i,
{
    i < items.len() && (path_holds(items[i as int], path, op, value, nums) || some_path_holds(
        items,
        i + 1,
        path,
        op,
        value,
        nums,
    ))
}

/// Follows the path from its segment `at` on.
#[verifier::loop_isolation(false)]
pub fn navigate_matches(
    current: &Value,
    segments: &Vec<String>,
    at: usize,
    op: FilterOp,
    value: Option<&str>,
    nums: &Numbers,
) -> (r: bool)
    requires
        at <= segments.len(),
    ensures
        r == path_holds(current@, texts(segments@).skip(at as int), op, opt_slice(value), *nums),
    decreases segments.len() - at,
{
    let ghost path = texts(segments@).skip(at as int);
    if at == segments.len() {
        return op_matches(current, op, value, nums);
    }
    assert(path[0] == segments@[at as int]@);
    assert(path.drop_first() =~= texts(segments@).skip(at + 1));
    if str_eq(&segments[at], "[]") {
        match current {
            Value::Array(items) => {
                let mut i: usize = 0;
                while i < items.len()
                    invariant
                        i <= items.len(),
                        some_path_holds(
                            views(items@),
                            0,
                            path.drop_first(),
                            op,
                            opt_slice(value),
                            *nums,
                        ) == some_path_holds(
                            views(items@),
                            i as nat,
                            path.drop_first(),
                            op,
                            opt_slice(value),
                            *nums,
                        ),
                    decreases items.len() - i,
                {
                    assert(views(items@)[i as int] == items@[i as int]@);
                    if navigate_matches(&items[i], segments, at + 1, op, value, nums) {
                        return true;
                    }
                    i += 1;
                }
                false
            },
            _ => false,
        }
    } else {
        match current {
            Value::Object(o) => {
                let i: usize = o.find(&segments[at]);
                proof {
                    lemma_key_index(o@, segments@[at as int]@);
                }
                if i < o.entries.len() {
                    assert(o@[i as int].1 == o.entries@[i as int].1@);
                    navigate_matches(&o.entries[i].1, segments, at + 1, op, value, nums)
                } else {
                    false
                }
            },
            _ => false,
        }
    }
}

/// Whether a decoded record satisfies a predicate. Without a path every value
/// in the record is tested.
pub open spec fn predicate_holds(
    fields: Json,
    path: Option<Seq<char>>,
    op: FilterOp,
    value: Option<Seq<char>>,
    nums: Numbers,
) -> bool {
    match path {
        Some(p) => if trimmed(p).len() > 0 {
            path_holds(fields, split_all(trimmed(p), '.'), op, value, nums)
        } else {
            deep_holds(fields, op, value, nums)
        },
        None => deep_holds(fields, op, value, nums),
    }
}

/// Whether a decoded record satisfies a predicate.
pub fn predicate_matches(
    fields: &Value,
    path: Option<&str>,
    op: FilterOp,
    value: Option<&str>,
    nums: &Numbers,
) -> (r: bool)
    ensures
        r == predicate_holds(fields@, opt_slice(path), op, opt_slice(value), *nums),
{
    match path {
        Some(p) => {
            let v = trim_chars(p);
            if v.len() > 0 {
                let segments = split_chars(&v, '.');
                assert(texts(segments@).skip(0) =~= texts(segments@));
                navigate_matches(fields, &segments, 0, op, value, nums)
            } else {
                deep_scan_matches(fields, op, value, nums)
            }
        },
        None => deep_scan_matches(fields, op, value, nums),
    }
}

// ── Paths ──────────────────────────────────────────────────────────────────
/// The path of key `k` under `prefix`.
pub open spec fn under(prefix: Seq<char>, k: Seq<char>) -> Seq<char> {
    if prefix.len() == 0 {
        k
    } else {
        prefix + "."@ + k
    }
}

/// The path of key `k` under `prefix`.
pub fn join_path(prefix: &str, k: &str) -> (r: String)
    ensures
        r@ == under(prefix@, k@),
{
    if chars_empty(prefix) {
        k.to_owned()
    } else {
        concat(&concat(prefix, "."), k)
    }
}

/// Whether a text is empty.
pub fn chars_empty(s: &str) -> (b: bool)
    ensures
        b == (s@.len() == 0),
{
    crate::text::chars_of(s).len() == 0
}

/// The sorted list of the paths in `v`, joined to those in `out`, until there
/// are `cap` of them. All elements of an array share the segment `[]`.
pub open spec fn paths(v: Json, prefix: Seq<char>, out: Seq<Seq<char>>, cap: int) -> Seq<Seq<char>>
    decreases v, 0nat,
{
    if out.len() >= cap {
        out
    } else {
        match v {
            Json::Obj(o) => entry_paths(o, 0, prefix, out, cap),
            Json::Arr(items) => {
                let next = under(prefix, "[]"@);
                item_paths(items, 0, next, joined(out, next), cap)
            },
            _ => out,
        }
    }
}

/// The paths in the entries from `i` on.
pub open spec fn entry_paths(
    o: Entries,
    i: nat,
    prefix: Seq<char>,
    out: Seq<Seq<char>>,
    cap: int,
) -> Seq<Seq<char>>
    decreases o, o.len() - i,
{
    if i >= o.len() {
        out
    } else {
        let next = under(prefix, o[i as int].0);
        let more = paths(o[i as int].1, next, joined(out, next), cap);
        if more.len() >= cap {
            more
        } else {
            entry_paths(o, i + 1, prefix, more, cap)
        }
    }
}

/// The paths in the items from `i` on.
pub open spec fn item_paths(
    items: Seq<Json>,
    i: nat,
    prefix: Seq<char>,
    out: Seq<Seq<char>>,
    cap: int,
) -> Seq<Seq<char>>
    decreases items, items.len() - i,
{
    if i >= items.len() {
        out
    } else {
        let more = paths(items[i as int], prefix, out, cap);
        if more.len() >= cap {
            more
        } else {
            item_paths(items, i + 1, prefix, more, cap)
        }
    }
}

/// Collects the paths in a value.
#[verifier::loop_isolation(false)]
pub fn collect_field_paths(v: &Value, prefix: &str, out: &mut Vec<String>, cap: usize)
    ensures
        texts(final(out)@) == paths(v@, prefix@, texts(old(out)@), cap as int),
    decreases v,
{
    if out.len() >= cap {
        return;
    }
    match v {
        Value::Object(o) => {
            let mut i: usize = 0;
            while i < o.entries.len()
                invariant
                    i <= o.entries.len(),
                    entry_paths(o@, 0, prefix@, texts(old(out)@), cap as int) == entry_paths(
                        o@,
                        i as nat,
                        prefix@,
                        texts(out@),
                        cap as int,
                    ),
                decreases o.entries.len() - i,
            {
                assert(o@[i as int] == (o.entries@[i as int].0@, o.entries@[i as int].1@));
                let next = join_path(prefix, &o.entries[i].0);
                join_text(out, &next);
                collect_field_paths(&o.entries[i].1, &next, out, cap);
                if out.len() >= cap {
                    return;
                }
                i += 1;
            }
        },
        Value::Array(items) => {
            let next = join_path(prefix, "[]");
            join_text(out, &next);
            let ghost start = texts(out@);
            let mut i: usize = 0;
            while i < items.len()
                invariant
                    i <= items.len(),
                    item_paths(views(items@), 0, next@, start, cap as int) == item_paths(
                        views(items@),
                        i as nat,
                        next@,
                        texts(out@),
                        cap as int,
                    ),
                decreases items.len() - i,
            {
                assert(views(items@)[i as int] == items@[i as int]@);
                collect_field_paths(&items[i], &next, out, cap);
                if out.len() >= cap {
                    return;
                }
                i += 1;
            }
        },
        _ => {},
    }
}

/// The path of element `i` of the array at `prefix`.
pub open spec fn element_path(prefix: Seq<char>, i: int) -> Seq<char> {
    prefix + "["@ + decimal(i) + "]"@
}

/// The paths at which `target` stands in `v`, after `out`.
pub open spec fn target_paths(
    v: Json,
    target: Seq<char>,
    prefix: Seq<char>,
    out: Seq<Seq<char>>,
) -> Seq<Seq<char>>
    decreases v, 0nat,
{
    match v {
        Json::Str(s) => if s == target {
            out.push(prefix)
        } else {
            out
        },
        Json::Obj(o) => entry_target_paths(o, 0, target, prefix, out),
        Json::Arr(items) => item_target_paths(items, 0, target, prefix, out),
        _ => out,
    }
}

/// The paths at which `target` stands in the entries from `i` on.
pub open spec fn entry_target_paths(
    o: Entries,
    i: nat,
    target: Seq<char>,
    prefix: Seq<char>,
    out: Seq<Seq<char>>,
) -> Seq<Seq<char>>
    decreases o, o.len() - i,
{
    if i >= o.len() {
        out
    } else {
        entry_target_paths(
            o,
            i + 1,
            target,
            prefix,
            target_paths(o[i as int].1, target, under(prefix, o[i as int].0), out),
        )
    }
}

/// The paths at which `target` stands in the items from `i` on.
pub open spec fn item_target_paths(
    items: Seq<Json>,
    i: nat,
    target: Seq<char>,
    prefix: Seq<char>,
    out: Seq<Seq<char>>,
) -> Seq<Seq<char>>
    decreases items, items.len() - i,
{
    if i >= items.len() {
        out
    } else {
        item_target_paths(
            items,
            i + 1,
            target,
            prefix,
            target_paths(items[i as int], target, element_path(prefix, i as int), out),
        )
    }
}

/// Collects the paths at which `target` stands in a value.
#[verifier::loop_isolation(false)]
pub fn collect_formid_paths(v: &Value, target: &str, prefix: &str, out: &mut Vec<String>)
    ensures
        texts(final(out)@) == target_paths(v@, target@, prefix@, texts(old(out)@)),
    decreases v,
{
    match v {
        Value::String(s) => {
            if str_eq(s, target) {
                let ghost before = texts(out@);
                out.push(prefix.to_owned());
                assert(texts(out@) =~= before.push(prefix@));
            }
        },
        Value::Object(o) => {
            let mut i: usize = 0;
            while i < o.entries.len()
                invariant
                    i <= o.entries.len(),
                    entry_target_paths(o@, 0, target@, prefix@, texts(old(out)@))
                        == entry_target_paths(o@, i as nat, target@, prefix@, texts(out@)),
                decreases o.entries.len() - i,
            {
                assert(o@[i as int] == (o.entries@[i as int].0@, o.entries@[i as int].1@));
                let next = join_path(prefix, &o.entries[i].0);
                collect_formid_paths(&o.entries[i].1, target, &next, out);
                i += 1;
            }
        },
        Value::Array(items) => {
            let mut i: usize = 0;
            while i < items.len()
                invariant
                    i <= items.len(),
                    item_target_paths(views(items@), 0, target@, prefix@, texts(old(out)@))
                        == item_target_paths(
                        views(items@),
                        i as nat,
                        target@,
                        prefix@,
                        texts(out@),
                    ),
                decreases items.len() - i,
            {
                assert(views(items@)[i as int] == items@[i as int]@);
                let next = concat(
                    &concat(&concat(prefix, "["), &decimal_string(i as i128)),
                    "]",
                );
                collect_formid_paths(&items[i], target, &next, out);
                i += 1;
            }
        },
        _ => {},
    }
}

/// Whether a text is one that a decoded FormID reads as.
pub fn looks_like_decoded_formid(s: &str) -> (r: bool)
    ensures
        r == decoded_formid(s@),
{
    is_formid_str(s)
}

/// The decoded FormIDs in `v`, after `out`.
pub open spec fn formid_texts(v: Json, out: Seq<Seq<char>>) -> Seq<Seq<char>>
    decreases v, 0nat,
{
    match v {
        Json::Str(s) => if decoded_formid(s) {
            out.push(s)
        } else {
            out
        },
        Json::Obj(o) => entry_formid_texts(o, 0, out),
        Json::Arr(items) => item_formid_texts(items, 0, out),
        _ => out,
    }
}

/// The decoded FormIDs in the entries from `i` on.
pub open spec fn entry_formid_texts(o: Entries, i: nat, out: Seq<Seq<char>>) -> Seq<Seq<char>>
    decreases o, o.len() - i,
{
    if i >= o.len() {
        out
    } else {
        entry_formid_texts(o, i + 1, formid_texts(o[i as int].1, out))
    }
}

/// The decoded FormIDs in the items from `i` on.
pub open spec fn item_formid_texts(items: Seq<Json>, i: nat, out: Seq<Seq<char>>) -> Seq<
    Seq<char>,
>
    decreases items, items.len() - i,
{
    if i >= items.len() {
        out
    } else {
        item_formid_texts(items, i + 1, formid_texts(items[i as int], out))
    }
}

/// Collects the decoded FormIDs in a value, each as often as it stands there.
#[verifier::loop_isolation(false)]
pub fn collect_all_formid_values(v: &Value, out: &mut Vec<String>)
    ensures
        texts(final(out)@) == formid_texts(v@, texts(old(out)@)),
    decreases v,
{
    match v {
        Value::String(s) => {
            if looks_like_decoded_formid(s) {
                let ghost before = texts(out@);
                out.push(s.as_str().to_owned());
                assert(texts(out@) =~= before.push(s@));
            }
        },
        Value::Object(o) => {
            let mut i: usize = 0;
            while i < o.entries.len()
                invariant
                    i <= o.entries.len(),
                    entry_formid_texts(o@, 0, texts(old(out)@)) == entry_formid_texts(
                        o@,
                        i as nat,
                        texts(out@),
                    ),
                decreases o.entries.len() - i,
            {
                assert(o@[i as int].1 == o.entries@[i as int].1@);
                collect_all_formid_values(&o.entries[i].1, out);
                i += 1;
            }
        },
        Value::Array(items) => {
            let mut i: usize = 0;
            while i < items.len()
                invariant
                    i <= items.len(),
                    item_formid_texts(views(items@), 0, texts(old(out)@)) == item_formid_texts(
                        views(items@),
                        i as nat,
                        texts(out@),
                    ),
                decreases items.len() - i,
            {
                assert(views(items@)[i as int] == items@[i as int]@);
                collect_all_formid_values(&items[i], out);
                i += 1;
            }
        },
        _ => {},
    }
}

// ── Laws ───────────────────────────────────────────────────────────────────
/// Without a path a record satisfies a predicate exactly where some value in
/// it does: at the record itself, or below one of its entries or elements.
pub proof fn law_deep_scan(v: Json, op: FilterOp, value: Option<Seq<char>>, nums: Numbers)
    ensures
        deep_holds(v, op, value, nums) == (value_holds(v, op, value, nums) || (match v {
            Json::Arr(items) => exists|i: int|
                0 <= i < items.len() && deep_holds(#[trigger] items[i], op, value, nums),
            Json::Obj(o) => exists|i: int|
                0 <= i < o.len() && deep_holds((#[trigger] o[i]).1, op, value, nums),
            _ => false,
        })),
{
    match v {
        Json::Arr(items) => lemma_item_holds(items, 0, op, value, nums),
        Json::Obj(o) => lemma_entry_holds(o, 0, op, value, nums),
        _ => {},
    }
}

proof fn lemma_item_holds(
    items: Seq<Json>,
    i: nat,
    op: FilterOp,
    value: Option<Seq<char>>,
    nums: Numbers,
)
    ensures
        item_holds(items, i, op, value, nums) == exists|j: int|
            i <= j < items.len() && deep_holds(#[trigger] items[j], op, value, nums),
    decreases items.len() - i,
{
    if i < items.len() {
        lemma_item_holds(items, i + 1, op, value, nums);
        if deep_holds(items[i as int], op, value, nums) {
            assert(i <= i as int && deep_holds(items[i as int], op, value, nums));
        }
    }
}

proof fn lemma_entry_holds(
    o: Entries,
    i: nat,
    op: FilterOp,
    value: Option<Seq<char>>,
    nums: Numbers,
)
    ensures
        entry_holds(o, i, op, value, nums) == exists|j: int|
            i <= j < o.len() && deep_holds((#[trigger] o[j]).1, op, value, nums),
    decreases o.len() - i,
{
    if i < o.len() {
        lemma_entry_holds(o, i + 1, op, value, nums);
        if deep_holds(o[i as int].1, op, value, nums) {
            assert(i <= i as int && deep_holds(o[i as int].1, op, value, nums));
        }
    }
}

/// A path through `[]` holds exactly where it holds from some element.
pub proof fn law_path_through_array(
    items: Seq<Json>,
    i: nat,
    path: Seq<Seq<char>>,
    op: FilterOp,
    value: Option<Seq<char>>,
    nums: Numbers,
)
    ensures
        some_path_holds(items, i, path, op, value, nums) == exists|j: int|
            i <= j < items.len() && path_holds(#[trigger] items[j], path, op, value, nums),
    decreases items.len() - i,
{
    if i < items.len() {
        law_path_through_array(items, i + 1, path, op, value, nums);
        if path_holds(items[i as int], path, op, value, nums) {
            assert(i <= i as int && path_holds(items[i as int], path, op, value, nums));
        }
    }
}

/// The paths of a value are sorted, without duplicates, at most `cap`, and
/// hold those that were there before.
pub proof fn law_paths_sorted(v: Json, prefix: Seq<char>, out: Seq<Seq<char>>, cap: int)
    requires
        texts_increase(out),
        out.len() <= cap,
    ensures
        texts_increase(paths(v, prefix, out, cap)),
        paths(v, prefix, out, cap).len() <= cap,
        forall|x: Seq<char>| #[trigger]
            out.contains(x) ==> paths(v, prefix, out, cap).contains(x),
    decreases v, 0nat,
{
    if out.len() < cap {
        match v {
            Json::Obj(o) => lemma_entry_paths(o, 0, prefix, out, cap),
            Json::Arr(items) => {
                let next = under(prefix, "[]"@);
                law_joined(out, next);
                lemma_item_paths(items, 0, next, joined(out, next), cap);
                assert forall|x: Seq<char>| #[trigger] out.contains(x) implies paths(
                    v,
                    prefix,
                    out,
                    cap,
                ).contains(x) by {
                    assert(joined(out, next).contains(x));
                }
            },
            _ => {},
        }
    }
}

proof fn lemma_entry_paths(o: Entries, i: nat, prefix: Seq<char>, out: Seq<Seq<char>>, cap: int)
    requires
        texts_increase(out),
        out.len() < cap,
    ensures
        texts_increase(entry_paths(o, i, prefix, out, cap)),
        entry_paths(o, i, prefix, out, cap).len() <= cap,
        forall|x: Seq<char>| #[trigger]
            out.contains(x) ==> entry_paths(o, i, prefix, out, cap).contains(x),
    decreases o, o.len() - i,
{
    if i < o.len() {
        let next = under(prefix, o[i as int].0);
        law_joined(out, next);
        law_paths_sorted(o[i as int].1, next, joined(out, next), cap);
        let more = paths(o[i as int].1, next, joined(out, next), cap);
        assert forall|x: Seq<char>| #[trigger] out.contains(x) implies more.contains(x) by {
            assert(joined(out, next).contains(x));
        }
        if more.len() < cap {
            lemma_entry_paths(o, i + 1, prefix, more, cap);
        }
    }
}

proof fn lemma_item_paths(
    items: Seq<Json>,
    i: nat,
    prefix: Seq<char>,
    out: Seq<Seq<char>>,
    cap: int,
)
    requires
        texts_increase(out),
        out.len() <= cap,
    ensures
        texts_increase(item_paths(items, i, prefix, out, cap)),
        item_paths(items, i, prefix, out, cap).len() <= cap,
        forall|x: Seq<char>| #[trigger]
            out.contains(x) ==> item_paths(items, i, prefix, out, cap).contains(x),
    decreases items, items.len() - i,
{
    if i < items.len() {
        law_paths_sorted(items[i as int], prefix, out, cap);
        let more = paths(items[i as int], prefix, out, cap);
        if more.len() < cap {
            lemma_item_paths(items, i + 1, prefix, more, cap);
        }
    }
}

/// Whether the table of texts gives `s` the key `k`: its first entry does.
pub open spec fn text_has_key(nums: Numbers, s: Seq<char>, k: i64) -> bool {
    exists|i: int|
        0 <= i < nums.texts@.len() && (#[trigger] nums.texts@[i]).0@ == s && nums.texts@[i].1 == k
            && forall|j: int| 0 <= j < i ==> (#[trigger] nums.texts@[j]).0@ != s
}

/// Whether a value is a number with the key `k`: an integer or a float by the
/// tables of numbers, or a text by the table of texts.
pub open spec fn number_with_key(nums: Numbers, v: Json, k: i64) -> bool {
    match v {
        Json::Int(n) => i128::MIN <= n <= i128::MAX && nums.integers@.contains_pair(n as i128, k),
        Json::Float(b) => nums.floats@.contains_pair(b, k),
        Json::Str(s) => text_has_key(nums, s, k),
        _ => false,
    }
}

proof fn lemma_key_of_text(list: Seq<(String, i64)>, s: Seq<char>)
    ensures
        key_of_text(list, s) is None <==> forall|i: int|
            0 <= i < list.len() ==> (#[trigger] list[i]).0@ != s,
        key_of_text(list, s) matches Some(k) ==> exists|i: int|
            0 <= i < list.len() && (#[trigger] list[i]).0@ == s && list[i].1 == k && forall|j: int|
                0 <= j < i ==> (#[trigger] list[j]).0@ != s,
    decreases list.len(),
{
    if list.len() > 0 {
        let rest = list.drop_first();
        lemma_key_of_text(rest, s);
        assert(forall|j: int| 0 <= j < rest.len() ==> #[trigger] rest[j] == list[j + 1]);
        if list[0].0@ == s {
            assert(list[0].1 == key_of_text(list, s)->0);
        } else {
            if key_of_text(rest, s) is None {
                assert forall|i: int| 0 <= i < list.len() implies (#[trigger] list[i]).0@ != s by {
                    if i > 0 {
                        assert(rest[i - 1].0@ != s);
                    }
                }
            } else {
                let i = choose|i: int|
                    0 <= i < rest.len() && (#[trigger] rest[i]).0@ == s && rest[i].1
                        == key_of_text(rest, s)->0 && forall|j: int|
                        0 <= j < i ==> (#[trigger] rest[j]).0@ != s;
                assert(list[i + 1] == rest[i]);
                assert forall|j: int| 0 <= j < i + 1 implies (#[trigger] list[j]).0@ != s by {
                    if j > 0 {
                        assert(rest[j - 1].0@ != s);
                    }
                }
            }
        }
    }
}

/// A text has the key that its first entry in the table gives it, and no key
/// without one.
pub proof fn law_text_keys(nums: Numbers, s: Seq<char>, k: i64)
    ensures
        nums.key(s) == Some(k) <==> text_has_key(nums, s, k),
        nums.key(s) is None <==> forall|i: int|
            0 <= i < nums.texts@.len() ==> (#[trigger] nums.texts@[i]).0@ != s,
{
    let list = nums.texts@;
    lemma_key_of_text(list, s);
    if text_has_key(nums, s, k) {
        let i = choose|i: int|
            0 <= i < list.len() && (#[trigger] list[i]).0@ == s && list[i].1 == k && forall|j: int|
                0 <= j < i ==> (#[trigger] list[j]).0@ != s;
        let m = key_of_text(list, s)->0;
        let h = choose|h: int|
            0 <= h < list.len() && (#[trigger] list[h]).0@ == s && list[h].1 == m && forall|j: int|
                0 <= j < h ==> (#[trigger] list[j]).0@ != s;
        if h < i {
            assert(list[h].0@ != s);
        } else if i < h {
            assert(list[i].0@ != s);
        }
    }
}

/// A number compares with an operand as their keys do: `Gt` and `Lt` strictly,
/// `Gte` and `Lte` also where they are equal, and `Eq` exactly there.
pub proof fn law_comparisons(v: Json, want: Seq<char>, nums: Numbers, a: i64, b: i64)
    requires
        number_with_key(nums, v, a),
        text_has_key(nums, want, b),
    ensures
        value_holds(v, FilterOp::Gt, Some(want), nums) <==> a > b,
        value_holds(v, FilterOp::Lt, Some(want), nums) <==> a < b,
        value_holds(v, FilterOp::Gte, Some(want), nums) <==> a >= b,
        value_holds(v, FilterOp::Lte, Some(want), nums) <==> a <= b,
        value_holds(v, FilterOp::Eq, Some(want), nums) <==> a == b,
{
    law_text_keys(nums, want, b);
    if let Json::Str(s) = v {
        law_text_keys(nums, s, a);
    }
}

/// Where either side is no number nothing compares, and equality is that of
/// the texts, whatever their case. Without an operand only `Exists` holds, and
/// of a container no operator does.
pub proof fn law_operators_on_texts(v: Json, want: Seq<char>, nums: Numbers, op: FilterOp)
    ensures
        op != FilterOp::Exists ==> !value_holds(v, op, None, nums),
        v is Arr || v is Obj ==> !value_holds(v, op, Some(want), nums) && !value_holds(
            v,
            op,
            None,
            nums,
        ),
        is_scalar(v) ==> value_holds(v, FilterOp::Exists, Some(want), nums) && value_holds(
            v,
            FilterOp::Exists,
            None,
            nums,
        ),
        (forall|k: i64| !number_with_key(nums, v, k)) || (forall|k: i64|
            !text_has_key(nums, want, k)) ==> {
            &&& op != FilterOp::Exists && op != FilterOp::Eq && op != FilterOp::Contains
                ==> !value_holds(v, op, Some(want), nums)
            &&& (v matches Json::Str(s) ==> (value_holds(v, FilterOp::Eq, Some(want), nums)
                <==> eq_nocase(s, want)))
            &&& (v matches Json::Int(n) ==> (value_holds(v, FilterOp::Eq, Some(want), nums)
                <==> eq_nocase(decimal(n), want)))
            &&& (v matches Json::Bool(t) ==> (value_holds(v, FilterOp::Eq, Some(want), nums)
                <==> eq_nocase(
                if t {
                    "true"@
                } else {
                    "false"@
                },
                want,
            )))
            &&& (v == Json::Null ==> (value_holds(v, FilterOp::Eq, Some(want), nums) <==> eq_nocase(
                "null"@,
                want,
            )))
        },
        v matches Json::Str(s) ==> (value_holds(v, FilterOp::Contains, Some(want), nums) <==> (
        exists|i: int|
            0 <= i <= lowercase(s).len() - lowercase(want).len() && #[trigger] lowercase(
                s,
            ).subrange(i, i + lowercase(want).len()) == lowercase(want))),
{
    if nums.value_key(v) is Some {
        let k = nums.value_key(v)->0;
        if let Json::Str(s) = v {
            law_text_keys(nums, s, k);
        }
        assert(number_with_key(nums, v, k));
    }
    if nums.key(want) is Some {
        law_text_keys(nums, want, nums.key(want)->0);
        assert(text_has_key(nums, want, nums.key(want)->0));
    }
}

} // verus!
