//! The identity of array elements: which fields tell the elements of an array
//! apart.
use crate::formid::{decoded_formid, is_formid_str};
use crate::json::{get, has_key, nothing, opt_view, put, views, Entries, Json, Object, Value};
use crate::text::{chars_of, split_once, split_once_str, str_eq, str_lt, text_lt, texts};
use vstd::prelude::*;

verus! {

/// A key: for each component the names under which its value may be found,
/// the first that is present counts.
pub type KeySpec = Vec<Vec<String>>;

/// A key as mathematics.
pub open spec fn key_view(k: Seq<Vec<String>>) -> Seq<Seq<Seq<char>>> {
    k.map_values(|alts: Vec<String>| texts(alts@))
}

/// Whether every component has a name.
pub open spec fn key_ok(k: Seq<Seq<Seq<char>>>) -> bool {
    forall|i: int| 0 <= i < k.len() ==> (#[trigger] k[i]).len() > 0
}

/// The name of the single object-valued entry that wraps an element.
pub open spec fn wrapper_of(o: Entries) -> Option<Seq<char>> {
    if o.len() == 1 && o[0].1 is Obj {
        Some(o[0].0)
    } else {
        None
    }
}

/// The fields of an element, inside its wrapper where it has one.
pub open spec fn body_of(o: Entries) -> Entries {
    if o.len() == 1 && o[0].1 is Obj {
        o[0].1->Obj_0
    } else {
        o
    }
}

/// The wrapper's name and the fields of an element.
pub fn unwrap_wrapper(o: &Object) -> (r: (Option<&str>, &Object))
    ensures
        r.1@ == body_of(o@),
        match r.0 {
            Some(s) => wrapper_of(o@) == Some(s@),
            None => wrapper_of(o@) is None,
        },
{
    if o.entries.len() == 1 {
        assert(o@[0] == (o.entries@[0].0@, o.entries@[0].1@));
        match &o.entries[0].1 {
            Value::Object(inner) => {
                return (Some(o.entries[0].0.as_str()), inner);
            },
            _ => {},
        }
    }
    (None, o)
}

/// Whether a value is a reference: the text of a FormID, or an object that
/// holds one.
pub open spec fn formid_shaped(v: Json) -> bool {
    match v {
        Json::Str(s) => decoded_formid(s),
        Json::Obj(o) => has_key(o, "formid"@),
        _ => false,
    }
}

/// Whether a value is a reference.
pub fn is_formid_shaped(v: &Value) -> (b: bool)
    ensures
        b == formid_shaped(v@),
{
    match v {
        Value::String(s) => is_formid_str(s),
        Value::Object(o) => o.contains_key("formid"),
        _ => false,
    }
}

/// Whether `k` names an index.
pub open spec fn index_name(k: Seq<char>) -> bool {
    k == "Index"@ || (k.len() >= 6 && k.skip(k.len() - 6) == " Index"@)
}

/// Whether `k` names an index.
fn is_index_name(k: &str) -> (b: bool)
    ensures
        b == index_name(k@),
{
    if str_eq(k, "Index") {
        return true;
    }
    let v = chars_of(k);
    if v.len() < 6 {
        return false;
    }
    let n: usize = v.len() - 6;
    let tail = crate::text::string_of(&v, n, v.len());
    assert(tail@ =~= k@.skip(n as int));
    str_eq(&tail, " Index")
}

/// The first index name among the entries from `i` on.
pub open spec fn first_index(o: Entries, i: nat) -> Option<Seq<char>>
    decreases o.len() - i,
{
    if i >= o.len() {
        None
    } else if index_name(o[i as int].0) {
        Some(o[i as int].0)
    } else {
        first_index(o, i + 1)
    }
}

/// The names of the references among the first `n` entries, one component
/// each.
pub open spec fn reference_names(o: Entries, n: nat) -> Seq<Seq<Seq<char>>>
    decreases n,
{
    if n == 0 || n > o.len() {
        Seq::empty()
    } else if formid_shaped(o[n - 1].1) {
        reference_names(o, (n - 1) as nat).push(seq![o[n - 1].0])
    } else {
        reference_names(o, (n - 1) as nat)
    }
}

/// A key of one component with one name.
pub open spec fn key1(a: Seq<char>) -> Seq<Seq<Seq<char>>> {
    seq![seq![a]]
}

/// The key that the shape of an element suggests. The most telling shapes
/// come first; references count only where nothing else tells.
pub open spec fn key_for(sample: Entries) -> Option<Seq<Seq<Seq<char>>>> {
    let w = wrapper_of(sample);
    let body = body_of(sample);
    if has_key(body, "Function Type"@) && has_key(body, "Property"@) {
        Some(seq![seq!["Function Type"@], seq!["Property"@]])
    } else if w == Some("Leveled List Entry"@) {
        Some(seq![seq!["Reference"@, "Item"@], seq!["Minimum Level"@, "Level"@]])
    } else if w == Some("Effect"@) {
        Some(key1("Base Effect"@))
    } else if has_key(body, "Component"@) {
        Some(key1("Component"@))
    } else if has_key(body, "Item Type"@) {
        Some(key1("Item Type"@))
    } else if w == Some("Objective"@) {
        Some(key1("Objective Index"@))
    } else if w == Some("Stage"@) {
        Some(key1("INDX.Stage Index"@))
    } else if w == Some("Attack"@) {
        Some(key1("Attack Event"@))
    } else if has_key(body, "Faction"@) {
        Some(key1("Faction"@))
    } else if has_key(body, "Perk"@) {
        Some(key1("Perk"@))
    } else if has_key(body, "Mod"@) {
        Some(key1("Mod"@))
    } else if has_key(body, "Keyword"@) && has_key(body, "Sound"@) {
        Some(key1("Keyword"@))
    } else if has_key(body, "Alias ID"@) {
        Some(key1("Alias ID"@))
    } else if first_index(body, 0) is Some {
        Some(key1(first_index(body, 0)->0))
    } else if has_key(body, "name"@) && has_key(body, "type"@) && has_key(body, "value"@) {
        Some(key1("name"@))
    } else if reference_names(body, body.len()).len() > 0 {
        Some(reference_names(body, body.len()))
    } else {
        None
    }
}

/// A list of one string.
fn strings1(a: &str) -> (r: Vec<String>)
    ensures
        texts(r@) == seq![a@],
{
    let mut r: Vec<String> = Vec::new();
    r.push(a.to_owned());
    assert(texts(r@) =~= seq![a@]);
    r
}

/// A list of two strings.
fn strings2(a: &str, b: &str) -> (r: Vec<String>)
    ensures
        texts(r@) == seq![a@, b@],
{
    let mut r: Vec<String> = Vec::new();
    r.push(a.to_owned());
    r.push(b.to_owned());
    assert(texts(r@) =~= seq![a@, b@]);
    r
}

/// A key of one component with one name.
fn one(a: &str) -> (r: Option<KeySpec>)
    ensures
        r is Some,
        key_view(r->0@) == key1(a@),
{
    let mut r: KeySpec = Vec::new();
    r.push(strings1(a));
    assert(key_view(r@) =~= key1(a@));
    Some(r)
}

/// Whether the wrapper has the name `name`.
fn wrapped_as(wrapper: Option<&str>, name: &str) -> (b: bool)
    ensures
        b == (wrapper is Some && wrapper->0@ == name@),
{
    match wrapper {
        Some(w) => str_eq(w, name),
        None => false,
    }
}

/// The key that the shape of an element suggests.
pub fn element_key_spec(sample: &Object) -> (r: Option<KeySpec>)
    ensures
        match r {
            Some(k) => key_for(sample@) == Some(key_view(k@)),
            None => key_for(sample@) is None,
        },
{
    let (wrapper, body) = unwrap_wrapper(sample);
    if body.contains_key("Function Type") && body.contains_key("Property") {
        let mut r: KeySpec = Vec::new();
        r.push(strings1("Function Type"));
        r.push(strings1("Property"));
        assert(key_view(r@) =~= seq![seq!["Function Type"@], seq!["Property"@]]);
        return Some(r);
    }
    if wrapped_as(wrapper, "Leveled List Entry") {
        let mut r: KeySpec = Vec::new();
        r.push(strings2("Reference", "Item"));
        r.push(strings2("Minimum Level", "Level"));
        assert(key_view(r@) =~= seq![
            seq!["Reference"@, "Item"@],
            seq!["Minimum Level"@, "Level"@],
        ]);
        return Some(r);
    }
    if wrapped_as(wrapper, "Effect") {
        return one("Base Effect");
    }
    if body.contains_key("Component") {
        return one("Component");
    }
    if body.contains_key("Item Type") {
        return one("Item Type");
    }
    if wrapped_as(wrapper, "Objective") {
        return one("Objective Index");
    }
    if wrapped_as(wrapper, "Stage") {
        return one("INDX.Stage Index");
    }
    if wrapped_as(wrapper, "Attack") {
        return one("Attack Event");
    }
    if body.contains_key("Faction") {
        return one("Faction");
    }
    if body.contains_key("Perk") {
        return one("Perk");
    }
    if body.contains_key("Mod") {
        return one("Mod");
    }
    if body.contains_key("Keyword") && body.contains_key("Sound") {
        return one("Keyword");
    }
    if body.contains_key("Alias ID") {
        return one("Alias ID");
    }
    let i: usize = find_index_name(body);
    if i < body.entries.len() {
        return one(&body.entries[i].0);
    }
    if body.contains_key("name") && body.contains_key("type") && body.contains_key("value") {
        return one("name");
    }
    let refs = collect_reference_names(body);
    assert(key_view(refs@).len() == refs.len());
    if refs.len() > 0 {
        Some(refs)
    } else {
        None
    }
}

/// The position of the first index name, or the length.
fn find_index_name(o: &Object) -> (i: usize)
    ensures
        i <= o.entries.len(),
        i < o.entries.len() ==> first_index(o@, 0) == Some(o.entries@[i as int].0@),
        i == o.entries.len() ==> first_index(o@, 0) is None,
{
    let mut i: usize = 0;
    while i < o.entries.len()
        invariant
            i <= o.entries.len(),
            first_index(o@, 0) == first_index(o@, i as nat),
        decreases o.entries.len() - i,
    {
        assert(o@[i as int].0 == o.entries@[i as int].0@);
        if is_index_name(&o.entries[i].0) {
            return i;
        }
        i += 1;
    }
    i
}

/// The names of the references, one component each.
fn collect_reference_names(o: &Object) -> (r: KeySpec)
    ensures
        key_view(r@) == reference_names(o@, o@.len()),
{
    let mut r: KeySpec = Vec::new();
    let mut i: usize = 0;
    while i < o.entries.len()
        invariant
            i <= o.entries.len(),
            key_view(r@) =~= reference_names(o@, i as nat),
        decreases o.entries.len() - i,
    {
        assert(o@[i as int] == (o.entries@[i as int].0@, o.entries@[i as int].1@));
        if is_formid_shaped(&o.entries[i].1) {
            let ghost prior = key_view(r@);
            r.push(strings1(&o.entries[i].0));
            assert(key_view(r@) =~= prior.push(seq![o@[i as int].0]));
        }
        i += 1;
    }
    r
}

// ── Values of keys ─────────────────────────────────────────────────────────
/// The value at a path of names separated by dots.
pub open spec fn path_value(o: Entries, path: Seq<char>) -> Option<Json>
    decreases path.len(),
{
    match split_once(path, '.') {
        Some((head, tail)) => if tail.len() < path.len() {
            match get(o, head) {
                Some(Json::Obj(inner)) => path_value(inner, tail),
                _ => None,
            }
        } else {
            None
        },
        None => get(o, path),
    }
}

/// The value at a path of names separated by dots.
pub fn get_path<'a>(o: &'a Object, path: &str) -> (r: Option<&'a Value>)
    ensures
        opt_view(r) == path_value(o@, path@),
    decreases path@.len(),
{
    match split_once_str(path, '.') {
        Some((head, tail)) => {
            proof {
                lemma_split_shrinks(path@);
            }
            match o.get(&head) {
                Some(v) => match v {
                    Value::Object(inner) => get_path(inner, &tail),
                    _ => None,
                },
                None => None,
            }
        },
        None => o.get(path),
    }
}

proof fn lemma_split_shrinks(path: Seq<char>)
    ensures
        split_once(path, '.') matches Some((head, tail)) ==> tail.len() < path.len(),
{
}

/// The first of the names from `i` on that is present, or the length.
pub open spec fn present_name(alts: Seq<Seq<char>>, body: Entries, i: nat) -> int
    decreases alts.len() - i,
{
    if i >= alts.len() || path_value(body, alts[i as int]) is Some {
        i as int
    } else {
        present_name(alts, body, i + 1)
    }
}

/// The name of a component in `body`: the first that is present, or the first.
pub open spec fn component_name(alts: Seq<Seq<char>>, body: Entries) -> Seq<char> {
    let i = present_name(alts, body, 0);
    if 0 <= i < alts.len() {
        alts[i]
    } else {
        alts[0]
    }
}

/// The value of a component in `body`.
pub open spec fn component_value(alts: Seq<Seq<char>>, body: Entries) -> Option<Json> {
    let i = present_name(alts, body, 0);
    if 0 <= i < alts.len() {
        path_value(body, alts[i])
    } else {
        None
    }
}

/// The name and the value of a component in `body`.
pub fn resolve_key_component<'a>(alts: &'a Vec<String>, body: &'a Object) -> (r: (
    &'a str,
    Option<&'a Value>,
))
    requires
        alts.len() > 0,
    ensures
        r.0@ == component_name(texts(alts@), body@),
        opt_view(r.1) == component_value(texts(alts@), body@),
{
    let ghost names = texts(alts@);
    let mut i: usize = 0;
    while i < alts.len()
        invariant
            i <= alts.len(),
            names == texts(alts@),
            present_name(names, body@, 0) == present_name(names, body@, i as nat),
        decreases alts.len() - i,
    {
        assert(names[i as int] == alts@[i as int]@);
        if let Some(v) = get_path(body, &alts[i]) {
            return (alts[i].as_str(), Some(v));
        }
        i += 1;
    }
    (alts[0].as_str(), None)
}

/// What a value counts as when elements are paired: an enum object as its
/// number, a resolved reference as its FormID.
pub open spec fn canonical(v: Option<Json>) -> Json {
    match v {
        None => Json::Null,
        Some(Json::Obj(o)) => if has_key(o, "value"@) {
            get(o, "value"@)->0
        } else if has_key(o, "formid"@) {
            get(o, "formid"@)->0
        } else {
            Json::Obj(o)
        },
        Some(v) => v,
    }
}

/// What a value counts as when elements are paired.
pub fn canonical_key_value(v: Option<&Value>) -> (r: Value)
    ensures
        r@ == canonical(opt_view(v)),
{
    match v {
        None => Value::Null,
        Some(v) => match v {
            Value::Object(o) => match o.get("value") {
                Some(x) => x.copy(),
                None => match o.get("formid") {
                    Some(x) => x.copy(),
                    None => v.copy(),
                },
            },
            _ => v.copy(),
        },
    }
}

/// The fields of an element that is an object; none of another.
pub open spec fn element_body(elem: Json) -> Entries {
    match elem {
        Json::Obj(o) => body_of(o),
        _ => nothing(),
    }
}

/// The values of the first `n` components of a key in an element.
pub open spec fn key_values(elem: Json, k: Seq<Seq<Seq<char>>>, n: nat) -> Seq<Json>
    decreases n,
{
    if n == 0 || n > k.len() {
        Seq::empty()
    } else {
        key_values(elem, k, (n - 1) as nat).push(
            canonical(component_value(k[n - 1], element_body(elem))),
        )
    }
}

/// The value of a key in an element.
pub open spec fn key_of(elem: Json, k: Seq<Seq<Seq<char>>>) -> Seq<Json> {
    key_values(elem, k, k.len())
}

/// The value of a key in an element.
pub fn compute_key_info(elem: &Value, k: &KeySpec) -> (r: Vec<Value>)
    requires
        key_ok(key_view(k@)),
    ensures
        views(r@) == key_of(elem@, key_view(k@)),
{
    let empty = Object::new();
    let body: &Object = match elem {
        Value::Object(o) => unwrap_wrapper(o).1,
        _ => &empty,
    };
    let ghost kv = key_view(k@);
    let mut r: Vec<Value> = Vec::new();
    let mut i: usize = 0;
    while i < k.len()
        invariant
            i <= k.len(),
            kv == key_view(k@),
            key_ok(kv),
            body@ == element_body(elem@),
            views(r@) =~= key_values(elem@, kv, i as nat),
        decreases k.len() - i,
    {
        assert(kv[i as int] == texts(k@[i as int]@));
        assert(k@[i as int].len() > 0);
        let v = canonical_key_value(resolve_key_component(&k[i], body).1);
        let ghost prior = views(r@);
        let ghost added = v@;
        r.push(v);
        assert(views(r@) =~= prior.push(added));
        i += 1;
    }
    r
}

/// The keys of all elements.
pub open spec fn all_keys(elems: Seq<Json>, k: Seq<Seq<Seq<char>>>) -> Seq<Seq<Json>> {
    Seq::new(elems.len(), |i: int| key_of(elems[i], k))
}

/// The views of a list of lists.
pub open spec fn nested_views(rows: Seq<Vec<Value>>) -> Seq<Seq<Json>> {
    Seq::new(rows.len(), |i: int| views(rows[i]@))
}

/// The keys of all elements.
pub fn compute_keys(elems: &Vec<Value>, k: &KeySpec) -> (r: Vec<Vec<Value>>)
    requires
        key_ok(key_view(k@)),
    ensures
        nested_views(r@) == all_keys(views(elems@), key_view(k@)),
{
    let mut r: Vec<Vec<Value>> = Vec::new();
    let mut i: usize = 0;
    while i < elems.len()
        invariant
            i <= elems.len(),
            key_ok(key_view(k@)),
            r.len() == i,
            forall|j: int|
                0 <= j < i ==> views((#[trigger] r@[j])@) == key_of(
                    views(elems@)[j],
                    key_view(k@),
                ),
        decreases elems.len() - i,
    {
        r.push(compute_key_info(&elems[i], k));
        i += 1;
    }
    assert(nested_views(r@) =~= all_keys(views(elems@), key_view(k@)));
    r
}

/// Whether no two elements have the same key.
pub open spec fn keys_unique(elems: Seq<Json>, k: Seq<Seq<Seq<char>>>) -> bool {
    forall|i: int, j: int|
        0 <= i < j < elems.len() ==> #[trigger] key_of(elems[i], k) != #[trigger] key_of(
            elems[j],
            k,
        )
}

/// Whether no two elements have the same key.
#[verifier::loop_isolation(false)]
pub fn key_groups_unique(elems: &Vec<Value>, k: &KeySpec) -> (b: bool)
    requires
        key_ok(key_view(k@)),
    ensures
        b == keys_unique(views(elems@), key_view(k@)),
{
    let keys = compute_keys(elems, k);
    let ghost kv = key_view(k@);
    let ghost ev = views(elems@);
    assert(nested_views(keys@).len() == keys.len());
    assert forall|i: int| 0 <= i < ev.len() implies views((#[trigger] keys@[i])@) == key_of(
        ev[i],
        kv,
    ) by {
        assert(nested_views(keys@)[i] == all_keys(ev, kv)[i]);
    }
    let mut j: usize = 0;
    while j < keys.len()
        invariant
            j <= keys.len(),
            forall|p: int, q: int|
                0 <= p < q < j ==> #[trigger] key_of(ev[p], kv) != #[trigger] key_of(ev[q], kv),
        decreases keys.len() - j,
    {
        let mut i: usize = 0;
        while i < j
            invariant
                i <= j,
                forall|p: int|
                    0 <= p < i ==> #[trigger] key_of(ev[p], kv) != key_of(ev[j as int], kv),
            decreases j - i,
        {
            if crate::json::identical_all(&keys[i], &keys[j]) {
                assert(views(keys@[i as int]@) == key_of(ev[i as int], kv));
                assert(views(keys@[j as int]@) == key_of(ev[j as int], kv));
                return false;
            }
            assert(views(keys@[i as int]@) == key_of(ev[i as int], kv));
            assert(views(keys@[j as int]@) == key_of(ev[j as int], kv));
            i += 1;
        }
        j += 1;
    }
    true
}

// ── Widening ───────────────────────────────────────────────────────────────
/// The sorted list `list` with `s` put in.
pub open spec fn sorted_put(list: Seq<Seq<char>>, s: Seq<char>) -> Seq<Seq<char>>
    decreases list.len(),
{
    if list.len() == 0 || text_lt(s, list[0]) {
        seq![s] + list
    } else {
        seq![list[0]] + sorted_put(list.drop_first(), s)
    }
}

/// Puts `s` into the sorted list.
pub fn insert_sorted(list: &mut Vec<String>, s: String)
    ensures
        texts(final(list)@) == sorted_put(texts(old(list)@), s@),
{
    let ghost all = texts(list@);
    let mut i: usize = 0;
    assert(all.skip(0) =~= all);
    assert(all.take(0) + sorted_put(all.skip(0), s@) =~= sorted_put(all, s@));
    while i < list.len() && !str_lt(&s, &list[i])
        invariant
            i <= list.len(),
            list@ == old(list)@,
            all == texts(list@),
            sorted_put(all, s@) == all.take(i as int) + sorted_put(all.skip(i as int), s@),
        decreases list.len() - i,
    {
        let ghost t = all.skip(i as int);
        assert(t[0] == list@[i as int]@);
        assert(t.drop_first() =~= all.skip(i + 1));
        assert(all.take(i as int) + (seq![t[0]] + sorted_put(t.drop_first(), s@)) =~= all.take(
            i + 1,
        ) + sorted_put(all.skip(i + 1), s@));
        i += 1;
    }
    assert(i < list.len() ==> all.skip(i as int)[0] == list@[i as int]@);
    assert(all.take(i as int) + (seq![s@] + all.skip(i as int)) =~= all.insert(i as int, s@));
    let ghost st = s@;
    list.insert(i, s);
    assert(texts(list@) =~= all.insert(i as int, st));
}

/// A name behind a prefix.
pub open spec fn join_path(prefix: Seq<char>, k: Seq<char>) -> Seq<char> {
    if prefix.len() == 0 {
        k
    } else {
        prefix + seq!['.'] + k
    }
}

/// A name behind a prefix.
pub fn joined(prefix: &str, k: &str) -> (r: String)
    ensures
        r@ == join_path(prefix@, k@),
{
    if prefix.is_empty() {
        k.to_owned()
    } else {
        let mut r = prefix.to_owned();
        r.push('.');
        r.append(k);
        assert(r@ =~= prefix@ + seq!['.'] + k@);
        r
    }
}

/// The paths of the leaves among the entries from `i` on, put into `acc`. An
/// object is gone into down to `depth` levels, unless it is a reference; an
/// array has no leaf.
pub open spec fn leaf_paths(
    prefix: Seq<char>,
    o: Entries,
    i: nat,
    depth: nat,
    acc: Seq<Seq<char>>,
) -> Seq<Seq<char>>
    decreases depth, o.len() - i,
{
    if i >= o.len() {
        acc
    } else {
        let (k, v) = o[i as int];
        let path = join_path(prefix, k);
        let acc2 = match v {
            Json::Arr(_) => acc,
            Json::Obj(inner) => if depth > 0 && !formid_shaped(v) {
                leaf_paths(path, inner, 0, (depth - 1) as nat, acc)
            } else {
                sorted_put(acc, path)
            },
            _ => sorted_put(acc, path),
        };
        leaf_paths(prefix, o, i + 1, depth, acc2)
    }
}

/// Puts the paths of the leaves into `acc`.
#[verifier::loop_isolation(false)]
fn collect_leaf_paths(prefix: &str, o: &Object, depth: u8, acc: &mut Vec<String>)
    ensures
        texts(final(acc)@) == leaf_paths(prefix@, o@, 0, depth as nat, texts(old(acc)@)),
    decreases depth,
{
    let mut i: usize = 0;
    while i < o.entries.len()
        invariant
            i <= o.entries.len(),
            leaf_paths(prefix@, o@, 0, depth as nat, texts(old(acc)@)) == leaf_paths(
                prefix@,
                o@,
                i as nat,
                depth as nat,
                texts(acc@),
            ),
        decreases o.entries.len() - i,
    {
        assert(o@[i as int] == (o.entries@[i as int].0@, o.entries@[i as int].1@));
        let path = joined(prefix, &o.entries[i].0);
        match &o.entries[i].1 {
            Value::Array(_) => {},
            Value::Object(inner) => {
                if depth > 0 && !is_formid_shaped(&o.entries[i].1) {
                    collect_leaf_paths(&path, inner, depth - 1, acc);
                } else {
                    insert_sorted(acc, path);
                }
            },
            _ => {
                insert_sorted(acc, path);
            },
        }
        i += 1;
    }
}

/// The paths of the leaves of an element, in order.
pub fn scalar_leaf_paths(body: &Object, max_depth: u8) -> (r: Vec<String>)
    ensures
        texts(r@) == leaf_paths(Seq::empty(), body@, 0, max_depth as nat, Seq::empty()),
{
    let mut r: Vec<String> = Vec::new();
    assert(texts(r@) =~= Seq::<Seq<char>>::empty());
    proof {
        reveal_strlit("");
        assert(""@ =~= Seq::<char>::empty());
    }
    collect_leaf_paths("", body, max_depth, &mut r);
    r
}

/// Whether `path` is one of the names of a key.
pub open spec fn names_path(k: Seq<Seq<Seq<char>>>, path: Seq<char>) -> bool {
    exists|i: int| 0 <= i < k.len() && (#[trigger] k[i]).contains(path)
}

/// Whether `path` is one of the names of a key.
fn key_names(k: &KeySpec, path: &str) -> (b: bool)
    ensures
        b == names_path(key_view(k@), path@),
{
    let ghost kv = key_view(k@);
    let mut i: usize = 0;
    while i < k.len()
        invariant
            i <= k.len(),
            kv == key_view(k@),
            forall|j: int| 0 <= j < i ==> !(#[trigger] kv[j]).contains(path@),
        decreases k.len() - i,
    {
        assert(kv[i as int] == texts(k@[i as int]@));
        if crate::text::list_contains(&k[i], path) {
            proof {
                let j = choose|j: int| 0 <= j < k@[i as int].len() && (#[trigger] k@[i as int]@[j])@ == path@;
                assert(kv[i as int][j] == path@);
            }
            return true;
        }
        proof {
            if kv[i as int].contains(path@) {
                let j = choose|j: int| 0 <= j < kv[i as int].len() && kv[i as int][j] == path@;
                assert(k@[i as int]@[j]@ == path@);
            }
        }
        i += 1;
    }
    false
}

/// `wide`, with the paths from `i` on that `used` does not name added one by
/// one, until it tells the elements of both lists apart.
pub open spec fn widen_from(
    a: Seq<Json>,
    b: Seq<Json>,
    used: Seq<Seq<Seq<char>>>,
    wide: Seq<Seq<Seq<char>>>,
    paths: Seq<Seq<char>>,
    i: nat,
) -> Option<Seq<Seq<Seq<char>>>>
    decreases paths.len() - i,
{
    if i >= paths.len() {
        None
    } else if names_path(used, paths[i as int]) {
        widen_from(a, b, used, wide, paths, i + 1)
    } else {
        let wider = wide.push(seq![paths[i as int]]);
        if keys_unique(a, wider) && keys_unique(b, wider) {
            Some(wider)
        } else {
            widen_from(a, b, used, wider, paths, i + 1)
        }
    }
}

/// A key that tells the elements of both lists apart: `k` itself, or `k` and
/// further leaves of the elements.
pub open spec fn widened(
    a: Seq<Json>,
    b: Seq<Json>,
    k: Seq<Seq<Seq<char>>>,
    sample: Entries,
) -> Option<Seq<Seq<Seq<char>>>> {
    if keys_unique(a, k) && keys_unique(b, k) {
        Some(k)
    } else {
        widen_from(
            a,
            b,
            k,
            k,
            leaf_paths(Seq::empty(), body_of(sample), 0, 2, Seq::empty()),
            0,
        )
    }
}

/// A copy of a key.
fn copy_key(k: &KeySpec) -> (r: KeySpec)
    ensures
        key_view(r@) == key_view(k@),
{
    let mut r: KeySpec = Vec::new();
    let mut i: usize = 0;
    while i < k.len()
        invariant
            i <= k.len(),
            r.len() == i,
            forall|j: int| 0 <= j < i ==> texts((#[trigger] r@[j])@) == texts(k@[j]@),
        decreases k.len() - i,
    {
        let mut alts: Vec<String> = Vec::new();
        let mut j: usize = 0;
        while j < k[i].len()
            invariant
                i < k.len(),
                j <= k@[i as int].len(),
                alts.len() == j,
                forall|t: int| 0 <= t < j ==> (#[trigger] alts@[t])@ == k@[i as int]@[t]@,
            decreases k@[i as int].len() - j,
        {
            alts.push(k[i][j].clone());
            j += 1;
        }
        assert(texts(alts@) =~= texts(k@[i as int]@));
        r.push(alts);
        i += 1;
    }
    assert(key_view(r@) =~= key_view(k@));
    r
}

/// Finds a key that tells the elements of both lists apart.
pub fn widen_key_spec_until_unique(
    a: &Vec<Value>,
    b: &Vec<Value>,
    k: &KeySpec,
    sample: &Object,
) -> (r: Option<KeySpec>)
    requires
        key_ok(key_view(k@)),
    ensures
        match r {
            Some(w) => widened(views(a@), views(b@), key_view(k@), sample@) == Some(
                key_view(w@),
            ) && key_ok(key_view(w@)),
            None => widened(views(a@), views(b@), key_view(k@), sample@) is None,
        },
{
    if key_groups_unique(a, k) && key_groups_unique(b, k) {
        return Some(copy_key(k));
    }
    let body = unwrap_wrapper(sample).1;
    let paths = scalar_leaf_paths(body, 2);
    let ghost pv = texts(paths@);
    let ghost kv = key_view(k@);
    let mut wide = copy_key(k);
    let mut i: usize = 0;
    while i < paths.len()
        invariant
            i <= paths.len(),
            pv == texts(paths@),
            kv == key_view(k@),
            key_ok(key_view(wide@)),
            widened(views(a@), views(b@), kv, sample@) == widen_from(
                views(a@),
                views(b@),
                kv,
                key_view(wide@),
                pv,
                i as nat,
            ),
        decreases paths.len() - i,
    {
        assert(pv[i as int] == paths@[i as int]@);
        if !key_names(k, &paths[i]) {
            let ghost prior = key_view(wide@);
            wide.push(strings1(&paths[i]));
            assert(key_view(wide@) =~= prior.push(seq![pv[i as int]]));
            assert forall|j: int| 0 <= j < key_view(wide@).len() implies (#[trigger] key_view(
                wide@,
            )[j]).len() > 0 by {
                if j < prior.len() {
                    assert(prior[j].len() > 0);
                }
            }
            if key_groups_unique(a, &wide) && key_groups_unique(b, &wide) {
                return Some(wide);
            }
        }
        i += 1;
    }
    None
}

/// The key of a changed element as it is presented: the first `n` components,
/// each as the new element has it, or where it lacks it as the old one does.
pub open spec fn shown_key(k: Seq<Seq<Seq<char>>>, a: Json, b: Json, n: nat) -> Entries
    decreases n,
{
    if n == 0 || n > k.len() {
        nothing()
    } else {
        let o = shown_key(k, a, b, (n - 1) as nat);
        let alts = k[n - 1];
        match component_value(alts, element_body(b)) {
            Some(v) => put(o, component_name(alts, element_body(b)), v),
            None => put(
                o,
                component_name(alts, element_body(a)),
                match component_value(alts, element_body(a)) {
                    Some(v) => v,
                    None => Json::Null,
                },
            ),
        }
    }
}

/// The key of a changed element as it is presented.
pub fn display_key(k: &KeySpec, a: &Value, b: &Value) -> (r: Object)
    requires
        key_ok(key_view(k@)),
    ensures
        r@ == shown_key(key_view(k@), a@, b@, k.len() as nat),
{
    let empty = Object::new();
    let a_body: &Object = match a {
        Value::Object(o) => unwrap_wrapper(o).1,
        _ => &empty,
    };
    let b_body: &Object = match b {
        Value::Object(o) => unwrap_wrapper(o).1,
        _ => &empty,
    };
    let ghost kv = key_view(k@);
    let mut r = Object::new();
    let mut i: usize = 0;
    while i < k.len()
        invariant
            i <= k.len(),
            kv == key_view(k@),
            key_ok(kv),
            a_body@ == element_body(a@),
            b_body@ == element_body(b@),
            r@ == shown_key(kv, a@, b@, i as nat),
        decreases k.len() - i,
    {
        assert(kv[i as int] == texts(k@[i as int]@));
        assert(k@[i as int].len() > 0);
        let (b_name, b_value) = resolve_key_component(&k[i], b_body);
        match b_value {
            Some(v) => r.insert(b_name.to_owned(), v.copy()),
            None => {
                let (a_name, a_value) = resolve_key_component(&k[i], a_body);
                let v = match a_value {
                    Some(v) => v.copy(),
                    None => Value::Null,
                };
                r.insert(a_name.to_owned(), v);
            },
        }
        i += 1;
    }
    r
}

/// Every component of a suggested key has a name.
pub proof fn lemma_key_for_ok(sample: Entries)
    ensures
        key_for(sample) matches Some(k) ==> key_ok(k),
{
    let body = body_of(sample);
    lemma_reference_names_ok(body, body.len());
}

proof fn lemma_reference_names_ok(o: Entries, n: nat)
    ensures
        key_ok(reference_names(o, n)),
    decreases n,
{
    if n > 0 && n <= o.len() {
        lemma_reference_names_ok(o, (n - 1) as nat);
    }
}

} // verus!
