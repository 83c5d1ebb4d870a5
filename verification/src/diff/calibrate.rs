//! Defaults: values that appear in so many records of one comparison that the
//! serializer wrote them, not an author.
use crate::diff::array_diff::{is_empty_diff, no_diff};
use crate::diff::keys::{join_path, joined};
use crate::diff::noise::{hidden, is_from_to_leaf, is_leaf};
use crate::diff::report::{
    add_count, count_more, counts_view, diff_views, Counts, DefaultView, DiffView, RecordDiff,
    SuppressedDefault,
};
use crate::diff::restamp::{
    all_zeros, envelope_is_empty, fit, lemma_entries_push, lemma_views_push, replace_changed,
    replace_value, says_nothing, strip_padding_zeroed, with_changed, with_value, without_padding,
};
use crate::json::{
    entries_of, get, has_key, key_index, nothing, views, Entries, Json, Object, Value,
};
use crate::text::{
    chars_of, find_char, find_in, split_once, split_once_str, str_eq, str_lt, string_of, text_lt,
};
use vstd::prelude::*;

verus! {

/// What follows the last dot.
pub open spec fn last_segment(path: Seq<char>) -> Seq<char>
    decreases path.len(),
{
    match split_once(path, '.') {
        Some((_, tail)) => if tail.len() < path.len() {
            last_segment(tail)
        } else {
            path
        },
        None => path,
    }
}

/// The name of the field at a path: what follows the last dot, up to an
/// index.
pub open spec fn leaf_of(path: Seq<char>) -> Seq<char> {
    let s = last_segment(path);
    s.take(find_char(s, '['))
}

/// The name of the field at a path.
pub fn leaf_name(path: &str) -> (r: String)
    ensures
        r@ == leaf_of(path@),
    decreases path@.len(),
{
    match split_once_str(path, '.') {
        Some((_, tail)) => leaf_name(&tail),
        None => {
            let v = chars_of(path);
            assert(v@.skip(0) =~= v@);
            let i: usize = find_in(&v, 0, '[');
            let r = string_of(&v, 0, i);
            assert(r@ =~= path@.take(i as int));
            r
        },
    }
}

// ── Leaves ─────────────────────────────────────────────────────────────────
/// A replaced value: where, and what by what.
pub struct Leaf {
    pub path: Seq<char>,
    pub from: Json,
    pub to: Json,
}

/// A replaced value in memory.
pub struct LeafChange {
    pub path: String,
    pub from: Value,
    pub to: Value,
}

impl View for LeafChange {
    type V = Leaf;

    open spec fn view(&self) -> Leaf {
        Leaf { path: self.path@, from: self.from@, to: self.to@ }
    }
}

/// Replaced values as mathematics.
pub open spec fn leaf_views(list: Seq<LeafChange>) -> Seq<Leaf> {
    list.map_values(|l: LeafChange| l@)
}

/// The path of a field: an array difference has an index behind its name.
pub open spec fn child_path(path: Seq<char>, k: Seq<char>, v: Json) -> Seq<char> {
    let p = join_path(path, k);
    match v {
        Json::Obj(o) => if has_key(o, "_array_diff"@) {
            p + seq!['[', ']']
        } else {
            p
        },
        _ => p,
    }
}

/// The path of a field.
fn child_path_string(path: &str, k: &str, v: &Value) -> (r: String)
    ensures
        r@ == child_path(path@, k@, v@),
{
    let mut p = joined(path, k);
    let ghost start = p@;
    if let Value::Object(o) = v {
        if o.contains_key("_array_diff") {
            p.push('[');
            p.push(']');
            assert(p@ =~= start + seq!['[', ']']);
        }
    }
    p
}

/// The replaced values under `v`, after `acc`.
pub open spec fn leaves(v: Json, path: Seq<char>, acc: Seq<Leaf>) -> Seq<Leaf>
    decreases v, 1nat, 0nat,
{
    match v {
        Json::Obj(o) => {
            let i = key_index(o, "_array_diff"@);
            if is_leaf(o) {
                acc.push(Leaf { path, from: get(o, "from"@)->0, to: get(o, "to"@)->0 })
            } else if 0 <= i < o.len() && o[i].1 is Obj {
                let ad = o[i].1->Obj_0;
                let c = key_index(ad, "changed"@);
                if 0 <= c < ad.len() && ad[c].1 is Arr {
                    element_leaves(ad[c].1->Arr_0, path, 0, acc)
                } else {
                    acc
                }
            } else {
                field_leaves(o, path, 0, acc)
            }
        },
        _ => acc,
    }
}

/// The replaced values in the elements from `i` on, after `acc`.
pub open spec fn element_leaves(
    list: Seq<Json>,
    path: Seq<char>,
    i: nat,
    acc: Seq<Leaf>,
) -> Seq<Leaf>
    decreases list, 0nat, list.len() - i,
{
    if i >= list.len() {
        acc
    } else {
        let acc2 = match list[i as int] {
            Json::Obj(e) => {
                let j = key_index(e, "changes"@);
                if 0 <= j < e.len() {
                    leaves(e[j].1, path, acc)
                } else {
                    acc
                }
            },
            _ => acc,
        };
        element_leaves(list, path, i + 1, acc2)
    }
}

/// The replaced values in the fields from `i` on, after `acc`.
pub open spec fn field_leaves(o: Entries, path: Seq<char>, i: nat, acc: Seq<Leaf>) -> Seq<Leaf>
    decreases o, 0nat, o.len() - i,
{
    if i >= o.len() {
        acc
    } else if hidden(o[i as int].0) {
        field_leaves(o, path, i + 1, acc)
    } else {
        let (k, v) = o[i as int];
        field_leaves(o, path, i + 1, leaves(v, child_path(path, k, v), acc))
    }
}

/// A list of leaves with one more at its end.
proof fn lemma_leaves_push(list: Seq<LeafChange>, l: LeafChange)
    ensures
        leaf_views(list.push(l)) == leaf_views(list).push(l@),
{
    assert(leaf_views(list.push(l)) =~= leaf_views(list).push(l@));
}

/// Collects the replaced values under `v`.
#[verifier::loop_isolation(false)]
pub fn walk_diff_leaves(v: &Value, path: &str, out: &mut Vec<LeafChange>)
    ensures
        leaf_views(final(out)@) == leaves(v@, path@, leaf_views(old(out)@)),
    decreases v, 1nat, 0nat,
{
    let o: &Object = match v {
        Value::Object(o) => o,
        _ => {
            return;
        },
    };
    if is_from_to_leaf(o) {
        if let (Some(from), Some(to)) = (o.get("from"), o.get("to")) {
            let l = LeafChange { path: path.to_owned(), from: from.copy(), to: to.copy() };
            proof {
                lemma_leaves_push(out@, l);
            }
            out.push(l);
        }
        return;
    }
    let i: usize = o.find("_array_diff");
    if i < o.entries.len() {
        assert(o@[i as int].1 == o.entries@[i as int].1@);
        if let Value::Object(ad) = &o.entries[i].1 {
            let c: usize = ad.find("changed");
            if c < ad.entries.len() {
                assert(ad@[c as int].1 == ad.entries@[c as int].1@);
                if let Value::Array(list) = &ad.entries[c].1 {
                    walk_elements(list, path, out);
                }
            }
            return;
        }
    }
    let mut j: usize = 0;
    while j < o.entries.len()
        invariant
            j <= o.entries.len(),
            field_leaves(o@, path@, 0, leaf_views(old(out)@)) == field_leaves(
                o@,
                path@,
                j as nat,
                leaf_views(out@),
            ),
        decreases o.entries.len() - j,
    {
        assert(o@[j as int] == (o.entries@[j as int].0@, o.entries@[j as int].1@));
        let k = chars_of(&o.entries[j].0);
        if !(k.len() > 0 && k[0] == '_') {
            let p = child_path_string(path, &o.entries[j].0, &o.entries[j].1);
            walk_diff_leaves(&o.entries[j].1, &p, out);
        }
        j += 1;
    }
}

/// Collects the replaced values in the elements.
#[verifier::loop_isolation(false)]
fn walk_elements(list: &Vec<Value>, path: &str, out: &mut Vec<LeafChange>)
    ensures
        leaf_views(final(out)@) == element_leaves(
            views(list@),
            path@,
            0,
            leaf_views(old(out)@),
        ),
    decreases list, 0nat, 0nat,
{
    let mut i: usize = 0;
    while i < list.len()
        invariant
            i <= list.len(),
            element_leaves(views(list@), path@, 0, leaf_views(old(out)@)) == element_leaves(
                views(list@),
                path@,
                i as nat,
                leaf_views(out@),
            ),
        decreases list.len() - i,
    {
        assert(views(list@)[i as int] == list@[i as int]@);
        if let Value::Object(e) = &list[i] {
            let j: usize = e.find("changes");
            if j < e.entries.len() {
                assert(e@[j as int].1 == e.entries@[j as int].1@);
                walk_diff_leaves(&e.entries[j].1, path, out);
            }
        }
        i += 1;
    }
}

// ── Statistics ─────────────────────────────────────────────────────────────
/// How often values appeared, and which values were written by an edit.
pub struct Stats {
    pub seen: Seq<DefaultView>,
    pub edits: Seq<(Seq<char>, Json)>,
}

/// How often values appeared, in memory.
pub struct DefaultStats {
    pub seen: Vec<SuppressedDefault>,
    pub edits: Vec<(String, Value)>,
}

/// Defaults as mathematics.
pub open spec fn default_views(list: Seq<SuppressedDefault>) -> Seq<DefaultView> {
    list.map_values(|d: SuppressedDefault| d@)
}

/// Named values as mathematics.
pub open spec fn edit_views(list: Seq<(String, Value)>) -> Seq<(Seq<char>, Json)> {
    list.map_values(|e: (String, Value)| (e.0@, e.1@))
}

impl View for DefaultStats {
    type V = Stats;

    open spec fn view(&self) -> Stats {
        Stats { seen: default_views(self.seen@), edits: edit_views(self.edits@) }
    }
}

/// The position of a named value from `i` on, or the length.
pub open spec fn seen_index(list: Seq<DefaultView>, name: Seq<char>, v: Json, i: nat) -> int
    decreases list.len() - i,
{
    if i >= list.len() || (list[i as int].name == name && list[i as int].value == v) {
        i as int
    } else {
        seen_index(list, name, v, i + 1)
    }
}

/// The list with one more appearance of a named value.
pub open spec fn seen_more(list: Seq<DefaultView>, name: Seq<char>, v: Json) -> Seq<DefaultView> {
    let i = seen_index(list, name, v, 0);
    if i < list.len() {
        let n = list[i].count;
        list.update(
            i,
            DefaultView {
                name,
                value: v,
                count: if n < usize::MAX {
                    n + 1
                } else {
                    n
                },
            },
        )
    } else {
        list.push(DefaultView { name, value: v, count: 1 })
    }
}

/// The statistics with one more replaced value. A value that appears counts;
/// a value that replaces another was written by an edit; a value that
/// disappears says nothing, and neither does padding that is set to zero.
pub open spec fn note(s: Stats, l: Leaf) -> Stats {
    let name = leaf_of(l.path);
    let zeroed = match (l.from, l.to) {
        (Json::Str(from), Json::Str(to)) => from.len() > 0 && to.len() > 0 && all_zeros(to),
        _ => false,
    };
    if (name == "hex"@ && zeroed) || l.to == Json::Null {
        s
    } else if l.from == Json::Null {
        Stats { seen: seen_more(s.seen, name, l.to), ..s }
    } else {
        Stats { edits: s.edits.push((name, l.to)), ..s }
    }
}

/// The statistics with the first `n` replaced values.
pub open spec fn note_all(s: Stats, list: Seq<Leaf>, n: nat) -> Stats
    decreases n,
{
    if n == 0 || n > list.len() {
        s
    } else {
        note(note_all(s, list, (n - 1) as nat), list[n - 1])
    }
}

/// The statistics over the first `n` changed records.
pub open spec fn stats_of(changed: Seq<DiffView>, n: nat) -> Stats
    decreases n,
{
    if n == 0 || n > changed.len() {
        Stats { seen: Seq::empty(), edits: Seq::empty() }
    } else {
        let list = leaves(changed[n - 1].changes, Seq::empty(), Seq::empty());
        note_all(stats_of(changed, (n - 1) as nat), list, list.len())
    }
}

/// Counts one more appearance of a named value.
fn see_more(list: &mut Vec<SuppressedDefault>, name: &str, v: &Value)
    ensures
        default_views(final(list)@) == seen_more(default_views(old(list)@), name@, v@),
{
    let ghost lv = default_views(list@);
    let mut i: usize = 0;
    while i < list.len() && !(str_eq(&list[i].leaf_name, name) && list[i].value.identical(v))
        invariant
            i <= list.len(),
            list@ == old(list)@,
            lv == default_views(list@),
            seen_index(lv, name@, v@, 0) == seen_index(lv, name@, v@, i as nat),
        decreases list.len() - i,
    {
        assert(lv[i as int] == list@[i as int]@);
        i += 1;
    }
    assert(i < list.len() ==> lv[i as int] == list@[i as int]@);
    if i < list.len() {
        let n: usize = list[i].count;
        let d = SuppressedDefault {
            leaf_name: name.to_owned(),
            value: v.copy(),
            count: if n < usize::MAX {
                n + 1
            } else {
                n
            },
        };
        let ghost dv = d@;
        list[i] = d;
        assert(default_views(list@) =~= lv.update(i as int, dv));
    } else {
        let d = SuppressedDefault { leaf_name: name.to_owned(), value: v.copy(), count: 1 };
        let ghost dv = d@;
        list.push(d);
        assert(default_views(list@) =~= lv.push(dv));
    }
}

/// Notes one more replaced value.
fn note_leaf(s: &mut DefaultStats, l: &LeafChange)
    ensures
        final(s)@ == note(old(s)@, l@),
{
    if l.to.is_null() {
        return;
    }
    let name = leaf_name(&l.path);
    if let (Some(from), Some(to)) = (l.from.as_str(), l.to.as_str()) {
        if str_eq(&name, "hex") && !from.is_empty() && !to.is_empty() && zero_chars(&chars_of(to)) {
            return;
        }
    }
    if l.from.is_null() {
        see_more(&mut s.seen, &name, &l.to);
    } else {
        let ghost ev = edit_views(s.edits@);
        let ghost nv = name@;
        s.edits.push((name, l.to.copy()));
        assert(edit_views(s.edits@) =~= ev.push((nv, l.to@)));
    }
}

/// Whether every character is `0`.
fn zero_chars(v: &Vec<char>) -> (b: bool)
    ensures
        b == all_zeros(v@),
{
    let mut i: usize = 0;
    while i < v.len()
        invariant
            i <= v.len(),
            forall|j: int| 0 <= j < i ==> #[trigger] v@[j] == '0',
        decreases v.len() - i,
    {
        if v[i] != '0' {
            return false;
        }
        i += 1;
    }
    true
}

/// The statistics over the changed records.
pub fn collect_restamp_default_stats(changed: &Vec<RecordDiff>) -> (s: DefaultStats)
    ensures
        s@ == stats_of(diff_views(changed@), changed.len() as nat),
{
    let ghost cv = diff_views(changed@);
    let mut s = DefaultStats { seen: Vec::new(), edits: Vec::new() };
    assert(default_views(s.seen@) =~= Seq::<DefaultView>::empty());
    assert(edit_views(s.edits@) =~= Seq::<(Seq<char>, Json)>::empty());
    let mut i: usize = 0;
    while i < changed.len()
        invariant
            i <= changed.len(),
            cv == diff_views(changed@),
            s@ == stats_of(cv, i as nat),
        decreases changed.len() - i,
    {
        assert(cv[i as int] == changed@[i as int]@);
        let mut list: Vec<LeafChange> = Vec::new();
        assert(leaf_views(list@) =~= Seq::<Leaf>::empty());
        proof {
            reveal_strlit("");
            assert(""@ =~= Seq::<char>::empty());
        }
        walk_diff_leaves(&changed[i].field_changes, "", &mut list);
        let ghost lv = leaf_views(list@);
        let ghost start = s@;
        let mut j: usize = 0;
        while j < list.len()
            invariant
                j <= list.len(),
                lv == leaf_views(list@),
                s@ == note_all(start, lv, j as nat),
            decreases list.len() - j,
        {
            assert(lv[j as int] == list@[j as int]@);
            note_leaf(&mut s, &list[j]);
            j += 1;
        }
        i += 1;
    }
    s
}

// ── Classification ─────────────────────────────────────────────────────────
/// Whether a named value is one of `list`.
pub open spec fn named_in(list: Seq<(Seq<char>, Json)>, name: Seq<char>, v: Json) -> bool {
    exists|i: int| 0 <= i < list.len() && (#[trigger] list[i]).0 == name && list[i].1 == v
}

/// Whether a named value is one of `list`.
fn is_named_in(list: &Vec<(String, Value)>, name: &str, v: &Value) -> (b: bool)
    ensures
        b == named_in(edit_views(list@), name@, v@),
{
    let ghost lv = edit_views(list@);
    let mut i: usize = 0;
    while i < list.len()
        invariant
            i <= list.len(),
            lv == edit_views(list@),
            forall|j: int| 0 <= j < i ==> !((#[trigger] lv[j]).0 == name@ && lv[j].1 == v@),
        decreases list.len() - i,
    {
        assert(lv[i as int] == (list@[i as int].0@, list@[i as int].1@));
        if str_eq(&list[i].0, name) && list[i].1.identical(v) {
            return true;
        }
        i += 1;
    }
    false
}

/// Whether `a` is reported before `b`: the more frequent first, then by name.
pub open spec fn more_frequent(a: DefaultView, b: DefaultView) -> bool {
    a.count > b.count || (a.count == b.count && text_lt(a.name, b.name))
}

/// The position from `i` on before which `d` is reported.
pub open spec fn default_place(list: Seq<DefaultView>, d: DefaultView, i: nat) -> int
    decreases list.len() - i,
{
    if i >= list.len() || more_frequent(d, list[i as int]) {
        i as int
    } else {
        default_place(list, d, i + 1)
    }
}

/// The defaults among the first `n` values: those that appeared at least
/// `min` times and were never written by an edit.
pub open spec fn defaults_of(s: Stats, min: int, n: nat) -> Seq<DefaultView>
    decreases n,
{
    if n == 0 || n > s.seen.len() {
        Seq::empty()
    } else {
        let list = defaults_of(s, min, (n - 1) as nat);
        let d = s.seen[n - 1];
        if d.count >= min && !named_in(s.edits, d.name, d.value) {
            list.insert(default_place(list, d, 0), d)
        } else {
            list
        }
    }
}

/// The defaults among the values that appeared.
fn classify(s: &DefaultStats, min: usize) -> (r: Vec<SuppressedDefault>)
    ensures
        default_views(r@) == defaults_of(s@, min as int, s@.seen.len()),
{
    let ghost sv = s@;
    let mut r: Vec<SuppressedDefault> = Vec::new();
    assert(default_views(r@) =~= Seq::<DefaultView>::empty());
    let mut i: usize = 0;
    while i < s.seen.len()
        invariant
            i <= s.seen.len(),
            sv == s@,
            default_views(r@) == defaults_of(sv, min as int, i as nat),
        decreases s.seen.len() - i,
    {
        assert(sv.seen[i as int] == s.seen@[i as int]@);
        let d = &s.seen[i];
        if d.count >= min && !is_named_in(&s.edits, &d.leaf_name, &d.value) {
            let ghost rv = default_views(r@);
            let mut j: usize = 0;
            while j < r.len() && !(d.count > r[j].count || (d.count == r[j].count && str_lt(
                &d.leaf_name,
                &r[j].leaf_name,
            )))
                invariant
                    j <= r.len(),
                    rv == default_views(r@),
                    default_place(rv, d@, 0) == default_place(rv, d@, j as nat),
                decreases r.len() - j,
            {
                assert(rv[j as int] == r@[j as int]@);
                j += 1;
            }
            assert(j < r.len() ==> rv[j as int] == r@[j as int]@);
            let copy = SuppressedDefault {
                leaf_name: d.leaf_name.clone(),
                value: d.value.copy(),
                count: d.count,
            };
            r.insert(j, copy);
            assert(default_views(r@) =~= rv.insert(j as int, d@));
        }
        i += 1;
    }
    r
}

/// The named values of defaults.
pub open spec fn suppressible(list: Seq<DefaultView>) -> Seq<(Seq<char>, Json)> {
    list.map_values(|d: DefaultView| (d.name, d.value))
}

// ── Taking defaults out ────────────────────────────────────────────────────
/// A value without defaults, and whether nothing is left.
pub open spec fn undefaulted(v: Json, path: Seq<char>, set: Seq<(Seq<char>, Json)>) -> (Json, bool)
    decreases v, 1nat, 0nat,
{
    match v {
        Json::Obj(o) => {
            let i = key_index(o, "_array_diff"@);
            if 0 <= i < o.len() && o[i].1 is Obj {
                let ad = undefaulted_array(o[i].1->Obj_0, path, set);
                (Json::Obj(with_value(o, i, Json::Obj(ad))), says_nothing(ad))
            } else if is_leaf(o) {
                let to = get(o, "to"@)->0;
                (
                    v,
                    get(o, "from"@) == Some(Json::Null) && to != Json::Null && named_in(
                        set,
                        leaf_of(path),
                        to,
                    ),
                )
            } else {
                let rest = undefaulted_fields(o, path, set, o.len());
                (Json::Obj(rest), rest.len() == 0)
            }
        },
        _ => (v, false),
    }
}

/// The first `n` fields without defaults.
pub open spec fn undefaulted_fields(
    o: Entries,
    path: Seq<char>,
    set: Seq<(Seq<char>, Json)>,
    n: nat,
) -> Entries
    decreases o, 0nat, n,
{
    if n == 0 || n > o.len() {
        nothing()
    } else {
        let kept = undefaulted_fields(o, path, set, (n - 1) as nat);
        let (k, w) = o[n - 1];
        let (v, gone) = undefaulted(w, child_path(path, k, w), set);
        if gone {
            kept
        } else {
            kept.push((k, v))
        }
    }
}

/// An array difference without defaults in its changed elements.
pub open spec fn undefaulted_array(
    ad: Entries,
    path: Seq<char>,
    set: Seq<(Seq<char>, Json)>,
) -> Entries
    decreases ad, 2nat, 0nat,
{
    let c = key_index(ad, "changed"@);
    if 0 <= c < ad.len() && ad[c].1 is Arr {
        let list = ad[c].1->Arr_0;
        with_changed(ad, c, undefaulted_elements(list, path, set, list.len()))
    } else {
        ad
    }
}

/// The first `n` changed elements without defaults.
pub open spec fn undefaulted_elements(
    list: Seq<Json>,
    path: Seq<char>,
    set: Seq<(Seq<char>, Json)>,
    n: nat,
) -> Seq<Json>
    decreases list, 0nat, n,
{
    if n == 0 || n > list.len() {
        Seq::empty()
    } else {
        let kept = undefaulted_elements(list, path, set, (n - 1) as nat);
        match list[n - 1] {
            Json::Obj(e) => {
                let j = key_index(e, "changes"@);
                if 0 <= j < e.len() && e[j].1 is Obj {
                    let inner = e[j].1->Obj_0;
                    let rest = undefaulted_fields(inner, path, set, inner.len());
                    if rest.len() == 0 {
                        kept
                    } else {
                        kept.push(Json::Obj(with_value(e, j, Json::Obj(rest))))
                    }
                } else {
                    kept.push(list[n - 1])
                }
            },
            _ => kept.push(list[n - 1]),
        }
    }
}

/// A value without defaults, and whether nothing is left.
fn strip_value(v: &Value, path: &str, set: &Vec<(String, Value)>) -> (r: (Value, bool))
    ensures
        (r.0@, r.1) == undefaulted(v@, path@, edit_views(set@)),
    decreases v, 1nat, 0nat,
{
    let o: &Object = match v {
        Value::Object(o) => o,
        _ => {
            return (v.copy(), false);
        },
    };
    let i: usize = o.find("_array_diff");
    if i < o.entries.len() {
        assert(o@[i as int].1 == o.entries@[i as int].1@);
        if let Value::Object(ad) = &o.entries[i].1 {
            let rest = strip_array(ad, path, set);
            let gone = envelope_is_empty(&rest);
            return (Value::Object(replace_value(o, i, Value::Object(rest))), gone);
        }
    }
    if is_from_to_leaf(o) {
        let gone = match (o.get("from"), o.get("to")) {
            (Some(from), Some(to)) => from.is_null() && !to.is_null() && is_named_in(
                set,
                &leaf_name(path),
                to,
            ),
            _ => false,
        };
        return (v.copy(), gone);
    }
    let rest = strip_fields(o, path, set);
    let gone = rest.len() == 0;
    (Value::Object(rest), gone)
}

/// The fields without defaults.
#[verifier::loop_isolation(false)]
fn strip_fields(o: &Object, path: &str, set: &Vec<(String, Value)>) -> (r: Object)
    ensures
        r@ == undefaulted_fields(o@, path@, edit_views(set@), o@.len()),
    decreases o, 0nat, 0nat,
{
    let mut entries: Vec<(String, Value)> = Vec::new();
    assert(entries_of(entries@) =~= nothing());
    let mut i: usize = 0;
    while i < o.entries.len()
        invariant
            i <= o.entries.len(),
            entries_of(entries@) == undefaulted_fields(o@, path@, edit_views(set@), i as nat),
        decreases o.entries.len() - i,
    {
        assert(o@[i as int] == (o.entries@[i as int].0@, o.entries@[i as int].1@));
        let p = child_path_string(path, &o.entries[i].0, &o.entries[i].1);
        let (v, gone) = strip_value(&o.entries[i].1, &p, set);
        if !gone {
            let e = (o.entries[i].0.clone(), v);
            proof {
                lemma_entries_push(entries@, e);
            }
            entries.push(e);
        }
        i += 1;
    }
    Object { entries }
}

/// An array difference without defaults, and whether it says nothing more.
pub fn strip_calibrated_array_diff(ad: &Object, path: &str, set: &Vec<(String, Value)>) -> (r: (
    Object,
    bool,
))
    ensures
        r.0@ == undefaulted_array(ad@, path@, edit_views(set@)),
        r.1 == says_nothing(r.0@),
{
    let rest = strip_array(ad, path, set);
    let gone = envelope_is_empty(&rest);
    (rest, gone)
}

/// An array difference without defaults in its changed elements.
fn strip_array(ad: &Object, path: &str, set: &Vec<(String, Value)>) -> (r: Object)
    ensures
        r@ == undefaulted_array(ad@, path@, edit_views(set@)),
    decreases ad, 2nat, 0nat,
{
    let c: usize = ad.find("changed");
    if c < ad.entries.len() {
        assert(ad@[c as int].1 == ad.entries@[c as int].1@);
        if let Value::Array(list) = &ad.entries[c].1 {
            let kept = strip_elements(list, path, set);
            assert(views(list@).len() == list.len());
            return replace_changed(ad, c, kept);
        }
    }
    ad.copy()
}

/// The changed elements without defaults.
#[verifier::loop_isolation(false)]
fn strip_elements(list: &Vec<Value>, path: &str, set: &Vec<(String, Value)>) -> (r: Vec<Value>)
    ensures
        views(r@) == undefaulted_elements(
            views(list@),
            path@,
            edit_views(set@),
            list.len() as nat,
        ),
    decreases list, 0nat, 0nat,
{
    let mut kept: Vec<Value> = Vec::new();
    assert(views(kept@) =~= Seq::<Json>::empty());
    let mut i: usize = 0;
    while i < list.len()
        invariant
            i <= list.len(),
            views(kept@) == undefaulted_elements(
                views(list@),
                path@,
                edit_views(set@),
                i as nat,
            ),
        decreases list.len() - i,
    {
        assert(views(list@)[i as int] == list@[i as int]@);
        let mut item: Option<Value> = Some(list[i].copy());
        if let Value::Object(e) = &list[i] {
            let j: usize = e.find("changes");
            if j < e.entries.len() {
                assert(e@[j as int].1 == e.entries@[j as int].1@);
                if let Value::Object(inner) = &e.entries[j].1 {
                    let rest = strip_fields(inner, path, set);
                    if rest.len() == 0 {
                        item = None;
                    } else {
                        item = Some(Value::Object(replace_value(e, j, Value::Object(rest))));
                    }
                }
            }
        }
        if let Some(v) = item {
            proof {
                lemma_views_push(kept@, v);
            }
            kept.push(v);
        }
        i += 1;
    }
    kept
}

/// The field changes without defaults.
pub open spec fn without_defaults(v: Json, set: Seq<(Seq<char>, Json)>) -> Json {
    match v {
        Json::Obj(o) => Json::Obj(undefaulted_fields(o, Seq::empty(), set, o.len())),
        _ => v,
    }
}

/// Takes defaults out of the field changes.
pub fn strip_calibrated_defaults(field_changes: &mut Value, set: &Vec<(String, Value)>)
    ensures
        final(field_changes)@ == without_defaults(old(field_changes)@, edit_views(set@)),
{
    proof {
        reveal_strlit("");
        assert(""@ =~= Seq::<char>::empty());
    }
    let rest = match field_changes {
        Value::Object(o) => strip_fields(o, "", set),
        _ => {
            return;
        },
    };
    *field_changes = Value::Object(rest);
}

// ── The pass over all records ──────────────────────────────────────────────
/// What the pass has kept and counted.
pub struct Calibrated {
    pub kept: Seq<DiffView>,
    pub counts: Counts,
}

/// The field changes of a re-saved record without zeroed padding and defaults.
pub open spec fn calibrated_changes(v: Json, set: Seq<(Seq<char>, Json)>) -> Json {
    let unpadded = without_padding(v).0;
    if set.len() > 0 {
        without_defaults(unpadded, set)
    } else {
        unpadded
    }
}

/// What the pass keeps and counts of the first `n` records. Only re-saved
/// records are touched; one of which nothing is left is dropped and counted
/// under its type.
pub open spec fn calibrated(
    changed: Seq<DiffView>,
    restamp: Seq<bool>,
    counts: Counts,
    set: Seq<(Seq<char>, Json)>,
    n: nat,
) -> Calibrated
    decreases n,
{
    if n == 0 || n > changed.len() {
        Calibrated { kept: Seq::empty(), counts }
    } else {
        let before = calibrated(changed, restamp, counts, set, (n - 1) as nat);
        let d = changed[n - 1];
        if !restamp[n - 1] {
            Calibrated { kept: before.kept.push(d), ..before }
        } else {
            let padding = fit(without_padding(d.changes).1);
            let counted = if padding > 0 {
                count_more(before.counts, "padding_zeroed"@, padding)
            } else {
                before.counts
            };
            let rest = calibrated_changes(d.changes, set);
            if rest == no_diff() {
                Calibrated {
                    kept: before.kept,
                    counts: count_more(counted, d.stub.record_type, 1),
                }
            } else {
                Calibrated {
                    kept: before.kept.push(DiffView { changes: rest, ..d }),
                    counts: counted,
                }
            }
        }
    }
}

/// The defaults of a comparison.
pub open spec fn found_defaults(changed: Seq<DiffView>, min: int) -> Seq<DefaultView> {
    let s = stats_of(changed, changed.len());
    defaults_of(s, min, s.seen.len())
}

/// Takes zeroed padding and defaults out of the re-saved records among
/// `changed`, drops those of which nothing is left, counts what went, and
/// returns the defaults.
pub fn apply_restamp_calibrated_suppression(
    changed: &mut Vec<RecordDiff>,
    restamp: &Vec<bool>,
    suppressed_counts: &mut Vec<(String, u64)>,
    min_count: usize,
) -> (r: Vec<SuppressedDefault>)
    requires
        old(changed).len() == restamp.len(),
    ensures
        default_views(r@) == found_defaults(diff_views(old(changed)@), min_count as int),
        ({
            let done = calibrated(
                diff_views(old(changed)@),
                restamp@,
                counts_view(old(suppressed_counts)@),
                suppressible(default_views(r@)),
                old(changed).len() as nat,
            );
            diff_views(final(changed)@) == done.kept && counts_view(final(suppressed_counts)@)
                == done.counts
        }),
{
    let stats = collect_restamp_default_stats(changed);
    let defaults = classify(&stats, min_count);
    let ghost dv = default_views(defaults@);
    let mut set: Vec<(String, Value)> = Vec::new();
    let mut k: usize = 0;
    while k < defaults.len()
        invariant
            k <= defaults.len(),
            dv == default_views(defaults@),
            set.len() == k,
            forall|j: int|
                0 <= j < k ==> ((#[trigger] set@[j]).0@, set@[j].1@) == (dv[j].name, dv[j].value),
        decreases defaults.len() - k,
    {
        assert(dv[k as int] == defaults@[k as int]@);
        set.push((defaults[k].leaf_name.clone(), defaults[k].value.copy()));
        k += 1;
    }
    assert(edit_views(set@) =~= suppressible(dv));
    let ghost sv = suppressible(dv);
    let ghost cv = diff_views(changed@);
    let ghost start = counts_view(suppressed_counts@);
    let mut kept: Vec<RecordDiff> = Vec::new();
    assert(diff_views(kept@) =~= Seq::<DiffView>::empty());
    let mut i: usize = 0;
    while i < changed.len()
        invariant
            i <= changed.len(),
            changed.len() == restamp.len(),
            cv == diff_views(changed@),
            cv == diff_views(old(changed)@),
            start == counts_view(old(suppressed_counts)@),
            edit_views(set@) == sv,
            set.len() == sv.len(),
            diff_views(kept@) == calibrated(cv, restamp@, start, sv, i as nat).kept,
            counts_view(suppressed_counts@) == calibrated(
                cv,
                restamp@,
                start,
                sv,
                i as nat,
            ).counts,
        decreases changed.len() - i,
    {
        assert(cv[i as int] == changed@[i as int]@);
        let ghost prior = diff_views(kept@);
        let mut rd = changed[i].copy();
        if restamp[i] {
            let n: u64 = strip_padding_zeroed(&mut rd.field_changes);
            if n > 0 {
                add_count(suppressed_counts, "padding_zeroed", n);
            }
            if set.len() > 0 {
                strip_calibrated_defaults(&mut rd.field_changes, &set);
            }
            if is_empty_diff(&rd.field_changes) {
                add_count(suppressed_counts, &rd.stub.record_type, 1);
            } else {
                let ghost rv = rd@;
                kept.push(rd);
                assert(diff_views(kept@) =~= prior.push(rv));
            }
        } else {
            let ghost rv = rd@;
            kept.push(rd);
            assert(diff_views(kept@) =~= prior.push(rv));
        }
        i += 1;
    }
    *changed = kept;
    defaults
}

} // verus!
