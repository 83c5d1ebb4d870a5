//! What the difference of two lists holds.
use crate::diff::align::aligned;
use crate::diff::array_diff::{
    alone, counts, diff, envelope, keyed, keyed_changes, list_diff, multiset_diff, no_diff,
    pairs_of, positional, positional_changes, put_list, tally_of, unkeyed_diff, unmatched,
    FloatTexts,
};
use crate::diff::keys::{all_keys, key_for, key_of, keys_unique, shown_key, widened};
use crate::diff::laws::{law_multiset_balance, law_multiset_is_ordered, occurrences, read_in_order};
use crate::diff::reach::{law_from_to, replaced};
use crate::json::{get, nothing, obj1, obj4, put, same, same_all, Entries, Json};
use crate::order::law_get_after_put;
use crate::picks::{holds_picks, lemma_picked, picked};
use vstd::prelude::*;

verus! {

// ── Envelopes ──────────────────────────────────────────────────────────────
/// What an array difference holds under its one key.
pub open spec fn difference_in(v: Json) -> Option<Entries> {
    match v {
        Json::Obj(o) => match get(o, "_array_diff"@) {
            Some(Json::Obj(d)) => if o.len() == 1 {
                Some(d)
            } else {
                None
            },
            _ => None,
        },
        _ => None,
    }
}

/// The list under a key, or an empty one.
pub open spec fn list_under(d: Entries, k: Seq<char>) -> Seq<Json> {
    match get(d, k) {
        Some(Json::Arr(list)) => list,
        _ => Seq::empty(),
    }
}

/// Whether an array difference has a strategy and the lengths of both lists.
pub open spec fn describes(d: Entries, strategy: Seq<char>, a: int, b: int) -> bool {
    &&& get(d, "strategy"@) == Some(Json::Str(strategy))
    &&& get(d, "count_from"@) == Some(Json::Int(a))
    &&& get(d, "count_to"@) == Some(Json::Int(b))
}

proof fn lemma_envelope(d: Entries)
    ensures
        difference_in(envelope(d)) == Some(d),
        envelope(d) != no_diff(),
{
    law_get_after_put(nothing(), "_array_diff"@, Json::Obj(d), "_array_diff"@);
    assert(obj1("_array_diff"@, Json::Obj(d)).len() == 1);
}

proof fn lemma_put_list(d: Entries, k: Seq<char>, list: Seq<Json>, j: Seq<char>)
    ensures
        get(put_list(d, k, list), j) == if j == k && list.len() > 0 {
            Some(Json::Arr(list))
        } else {
            get(d, j)
        },
{
    if list.len() > 0 {
        law_get_after_put(d, k, Json::Arr(list), j);
    }
}

proof fn lemma_names_differ()
    ensures
        "strategy"@.len() == 8,
        "count_from"@.len() == 10,
        "count_to"@ != "strategy"@,
        "count_to"@.len() == 8,
        "added"@.len() == 5,
        "removed"@.len() == 7,
        "changed"@ != "removed"@,
        "changed"@.len() == 7,
        "unchanged_count"@.len() == 15,
        "key_fields"@ != "count_from"@,
        "key_fields"@.len() == 10,
{
    reveal_strlit("strategy");
    reveal_strlit("count_from");
    reveal_strlit("count_to");
    reveal_strlit("added");
    reveal_strlit("removed");
    reveal_strlit("changed");
    reveal_strlit("unchanged_count");
    reveal_strlit("key_fields");
    assert("count_to"@[0] == 'c' && "strategy"@[0] == 's');
    assert("changed"@[0] == 'c' && "removed"@[0] == 'r');
    assert("key_fields"@[0] == 'k' && "count_from"@[0] == 'c');
}

proof fn lemma_counts(strategy: Seq<char>, a: int, b: int)
    ensures
        describes(counts(strategy, a, b), strategy, a, b),
        get(counts(strategy, a, b), "added"@) is None,
        get(counts(strategy, a, b), "removed"@) is None,
        get(counts(strategy, a, b), "changed"@) is None,
        get(counts(strategy, a, b), "unchanged_count"@) is None,
{
    lemma_names_differ();
    let x = Json::Str(strategy);
    let one = put(nothing(), "strategy"@, x);
    let two = put(one, "count_from"@, Json::Int(a));
    let names = seq![
        "strategy"@,
        "count_from"@,
        "count_to"@,
        "added"@,
        "removed"@,
        "changed"@,
        "unchanged_count"@,
    ];
    assert forall|i: int| 0 <= i < names.len() implies get(
        counts(strategy, a, b),
        #[trigger] names[i],
    ) == if names[i] == "count_to"@ {
        Some(Json::Int(b))
    } else if names[i] == "count_from"@ {
        Some(Json::Int(a))
    } else if names[i] == "strategy"@ {
        Some(x)
    } else {
        None
    } by {
        law_get_after_put(nothing(), "strategy"@, x, names[i]);
        law_get_after_put(one, "count_from"@, Json::Int(a), names[i]);
        law_get_after_put(two, "count_to"@, Json::Int(b), names[i]);
    }
    assert(names[0] == "strategy"@ && names[1] == "count_from"@ && names[2] == "count_to"@);
    assert(names[3] == "added"@ && names[4] == "removed"@ && names[5] == "changed"@);
    assert(names[6] == "unchanged_count"@);
}

// ── Values ─────────────────────────────────────────────────────────────────
/// Two values that are not both objects and not both lists differ by being
/// replaced, unless they are equal.
pub proof fn law_values_are_replaced(a: Json, b: Json, floats: FloatTexts<'_>)
    requires
        !(a is Obj && b is Obj),
        !(a is Arr && b is Arr),
    ensures
        same(a, b) ==> diff(a, b, floats) == no_diff(),
        !same(a, b) ==> replaced(diff(a, b, floats), a, b),
{
    law_from_to(a, b);
}

// ── By position ────────────────────────────────────────────────────────────
/// The change at a position of two lists.
pub open spec fn change_at(a: Seq<Json>, b: Seq<Json>, floats: FloatTexts<'_>) -> spec_fn(
    int,
) -> Option<Json> {
    |i: int|
        {
            let d = diff(a[i], b[i], floats);
            if d == no_diff() {
                None
            } else {
                Some(
                    Json::Obj(
                        obj4(
                            "key"@,
                            Json::Obj(obj1("index"@, Json::Int(i))),
                            "index_from"@,
                            Json::Int(i),
                            "index_to"@,
                            Json::Int(i),
                            "changes"@,
                            d,
                        ),
                    ),
                )
            }
        }
}

proof fn lemma_positional(a: Seq<Json>, b: Seq<Json>, floats: FloatTexts<'_>, n: nat)
    requires
        n <= a.len(),
    ensures
        positional_changes(a, b, n, floats) == picked(change_at(a, b, floats), n),
    decreases n,
{
    if n > 0 {
        lemma_positional(a, b, floats, (n - 1) as nat);
    }
}

/// Lists that are compared by position differ exactly at the positions where
/// their elements do, and each of these is listed once with its index and what
/// changed, in order.
pub proof fn law_positional_lists_every_change(
    a: Seq<Json>,
    b: Seq<Json>,
    floats: FloatTexts<'_>,
)
    requires
        a.len() == b.len(),
    ensures
        positional(a, b, floats) == no_diff() <==> forall|i: int|
            0 <= i < a.len() ==> diff(#[trigger] a[i], b[i], floats) == no_diff(),
        positional(a, b, floats) != no_diff() ==> ({
            let d = difference_in(positional(a, b, floats));
            &&& d is Some
            &&& describes(d->Some_0, "positional"@, a.len() as int, b.len() as int)
            &&& holds_picks(
                list_under(d->Some_0, "changed"@),
                change_at(a, b, floats),
                a.len(),
            )
        }),
{
    let f = change_at(a, b, floats);
    let changed = positional_changes(a, b, a.len(), floats);
    lemma_positional(a, b, floats, a.len());
    let at = lemma_picked(f, a.len());
    let base = counts("positional"@, a.len() as int, b.len() as int);
    lemma_names_differ();
    lemma_counts("positional"@, a.len() as int, b.len() as int);
    let d = put(base, "changed"@, Json::Arr(changed));
    lemma_envelope(d);
    law_get_after_put(base, "changed"@, Json::Arr(changed), "strategy"@);
    law_get_after_put(base, "changed"@, Json::Arr(changed), "count_from"@);
    law_get_after_put(base, "changed"@, Json::Arr(changed), "count_to"@);
    law_get_after_put(base, "changed"@, Json::Arr(changed), "changed"@);
    if changed.len() == 0 {
        assert forall|i: int| 0 <= i < a.len() implies diff(#[trigger] a[i], b[i], floats)
            == no_diff() by {
            if f(i) is Some {
                assert(at.contains(i));
            }
        }
    } else {
        assert(f(at[0]) == Some(changed[0]));
        assert(diff(a[at[0]], b[at[0]], floats) != no_diff());
        assert(positional(a, b, floats) == envelope(d));
        assert(describes(d, "positional"@, a.len() as int, b.len() as int));
        assert(list_under(d, "changed"@) =~= changed);
    }
}

// ── By key ─────────────────────────────────────────────────────────────────
proof fn lemma_first_match(
    k: Seq<Json>,
    keys: Seq<Seq<Json>>,
    used: Seq<bool>,
    j: nat,
    at: int,
)
    requires
        j <= at < keys.len(),
        keys[at] == k,
        !used[at],
        forall|i: int| 0 <= i < keys.len() && i != at ==> (#[trigger] keys[i]) != k,
    ensures
        crate::diff::array_diff::first_match(k, keys, used, j) == at,
    decreases keys.len() - j,
{
    if j < at {
        assert(keys[j as int] != k);
        lemma_first_match(k, keys, used, j + 1, at);
    }
}

proof fn lemma_no_match(k: Seq<Json>, keys: Seq<Seq<Json>>, used: Seq<bool>, j: nat)
    requires
        j <= keys.len(),
        forall|i: int| 0 <= i < keys.len() ==> (#[trigger] keys[i]) != k,
    ensures
        crate::diff::array_diff::first_match(k, keys, used, j) == keys.len(),
    decreases keys.len() - j,
{
    if j < keys.len() {
        assert(keys[j as int] != k);
        lemma_no_match(k, keys, used, j + 1);
    }
}

/// Whether `acc` pairs the first elements, and `used` marks their partners.
spec fn paired(
    ak: Seq<Seq<Json>>,
    bk: Seq<Seq<Json>>,
    i: int,
    used: Seq<bool>,
    acc: Seq<int>,
) -> bool {
    &&& acc.len() == i
    &&& used.len() == bk.len()
    &&& forall|p: int| 0 <= p < i ==> 0 <= #[trigger] acc[p] <= bk.len()
    &&& forall|p: int| 0 <= p < i && #[trigger] acc[p] < bk.len() ==> bk[acc[p]] == ak[p]
    &&& forall|p: int, j: int|
        0 <= p < i && 0 <= j < bk.len() && #[trigger] ak[p] == #[trigger] bk[j] ==> acc[p] == j
    &&& forall|j: int|
        0 <= j < bk.len() && #[trigger] used[j] ==> exists|p: int|
            0 <= p < i && #[trigger] ak[p] == bk[j]
}

proof fn lemma_paired(
    ak: Seq<Seq<Json>>,
    bk: Seq<Seq<Json>>,
    i: nat,
    used: Seq<bool>,
    acc: Seq<int>,
)
    requires
        i <= ak.len(),
        forall|p: int, q: int| 0 <= p < q < ak.len() ==> #[trigger] ak[p] != #[trigger] ak[q],
        forall|p: int, q: int| 0 <= p < q < bk.len() ==> #[trigger] bk[p] != #[trigger] bk[q],
        paired(ak, bk, i as int, used, acc),
    ensures
        ({
            let r = crate::diff::array_diff::partners(ak, bk, i, used, acc);
            &&& r.len() == ak.len()
            &&& forall|p: int| 0 <= p < ak.len() ==> 0 <= #[trigger] r[p] <= bk.len()
            &&& forall|p: int|
                0 <= p < ak.len() && #[trigger] r[p] < bk.len() ==> bk[r[p]] == ak[p]
            &&& forall|p: int, j: int|
                0 <= p < ak.len() && 0 <= j < bk.len() && #[trigger] ak[p] == #[trigger] bk[j]
                    ==> r[p] == j
        }),
    decreases ak.len() - i,
{
    if i < ak.len() {
        let k = ak[i as int];
        let j = crate::diff::array_diff::first_match(k, bk, used, 0);
        if exists|q: int| 0 <= q < bk.len() && bk[q] == k {
            let q = choose|q: int| 0 <= q < bk.len() && bk[q] == k;
            if used[q] {
                let p = choose|p: int| 0 <= p < i && #[trigger] ak[p] == bk[q];
                assert(ak[p] != ak[i as int]);
            }
            assert forall|x: int| 0 <= x < bk.len() && x != q implies (#[trigger] bk[x]) != k by {
                if x < q {
                    assert(bk[x] != bk[q]);
                } else {
                    assert(bk[q] != bk[x]);
                }
            }
            lemma_first_match(k, bk, used, 0, q);
        } else {
            lemma_no_match(k, bk, used, 0);
        }
        let used2 = if j < bk.len() {
            used.update(j, true)
        } else {
            used
        };
        let acc2 = acc.push(j);
        assert forall|p: int, q: int|
            0 <= p < i + 1 && 0 <= q < bk.len() && #[trigger] ak[p]
                == #[trigger] bk[q] implies acc2[p] == q by {
            if p < i {
                assert(acc2[p] == acc[p]);
            }
        }
        assert forall|q: int| 0 <= q < bk.len() && #[trigger] used2[q] implies exists|p: int|
            0 <= p < i + 1 && #[trigger] ak[p] == bk[q] by {
            if q == j {
                assert(ak[i as int] == bk[q]);
            } else {
                assert(used[q]);
                let p = choose|p: int| 0 <= p < i && #[trigger] ak[p] == bk[q];
                assert(0 <= p < i + 1 && ak[p] == bk[q]);
            }
        }
        assert(paired(ak, bk, i as int + 1, used2, acc2));
        lemma_paired(ak, bk, i + 1, used2, acc2);
    }
}

/// Where a key tells the elements of each list apart, an element is paired
/// exactly with the one that has its key, and an element without one has no
/// partner.
pub proof fn law_pairs_are_the_same_keys(a: Seq<Json>, b: Seq<Json>, k: Seq<Seq<Seq<char>>>)
    requires
        keys_unique(a, k),
        keys_unique(b, k),
    ensures
        pairs_of(a, b, k).len() == a.len(),
        forall|i: int| 0 <= i < a.len() ==> 0 <= #[trigger] pairs_of(a, b, k)[i] <= b.len(),
        forall|i: int, j: int|
            0 <= i < a.len() && 0 <= j < b.len() ==> (key_of(#[trigger] a[i], k) == key_of(
                #[trigger] b[j],
                k,
            ) <==> pairs_of(a, b, k)[i] == j),
{
    let ak = all_keys(a, k);
    let bk = all_keys(b, k);
    let used = Seq::new(b.len(), |j: int| false);
    assert forall|p: int, q: int| 0 <= p < q < ak.len() implies #[trigger] ak[p] != #[trigger] ak[
    q] by {
        assert(key_of(a[p], k) != key_of(a[q], k));
    }
    assert forall|p: int, q: int| 0 <= p < q < bk.len() implies #[trigger] bk[p] != #[trigger] bk[
    q] by {
        assert(key_of(b[p], k) != key_of(b[q], k));
    }
    assert(paired(ak, bk, 0, used, Seq::empty()));
    lemma_paired(ak, bk, 0, used, Seq::empty());
    let r = pairs_of(a, b, k);
    assert forall|i: int, j: int| 0 <= i < a.len() && 0 <= j < b.len() implies (key_of(
        #[trigger] a[i],
        k,
    ) == key_of(#[trigger] b[j], k) <==> r[i] == j) by {
        assert(ak[i] == key_of(a[i], k) && bk[j] == key_of(b[j], k));
        if r[i] == j {
            assert(bk[r[i]] == ak[i]);
        }
    }
}

/// The change of an element that has a partner.
pub open spec fn paired_change(
    a: Seq<Json>,
    b: Seq<Json>,
    k: Seq<Seq<Seq<char>>>,
    floats: FloatTexts<'_>,
) -> spec_fn(int) -> Option<Json> {
    |i: int|
        {
            let j = pairs_of(a, b, k)[i];
            let d = diff(a[i], b[j], floats);
            if 0 <= j < b.len() && d != no_diff() {
                Some(
                    Json::Obj(
                        obj4(
                            "key"@,
                            Json::Obj(shown_key(k, a[i], b[j], k.len())),
                            "index_from"@,
                            Json::Int(i),
                            "index_to"@,
                            Json::Int(j),
                            "changes"@,
                            d,
                        ),
                    ),
                )
            } else {
                None
            }
        }
}

/// An element of the old list without a partner.
pub open spec fn gone_at(a: Seq<Json>, b: Seq<Json>, k: Seq<Seq<Seq<char>>>) -> spec_fn(
    int,
) -> Option<Json> {
    |i: int|
        if pairs_of(a, b, k)[i] >= b.len() {
            Some(a[i])
        } else {
            None
        }
}

/// An element of the new list that is nobody's partner.
pub open spec fn new_at(a: Seq<Json>, b: Seq<Json>, k: Seq<Seq<Seq<char>>>) -> spec_fn(
    int,
) -> Option<Json> {
    |j: int|
        if exists|i: int|
            0 <= i < pairs_of(a, b, k).len() && #[trigger] pairs_of(a, b, k)[i] == j {
            None
        } else {
            Some(b[j])
        }
}

proof fn lemma_keyed_changes(
    a: Seq<Json>,
    b: Seq<Json>,
    k: Seq<Seq<Seq<char>>>,
    floats: FloatTexts<'_>,
    n: nat,
)
    requires
        n <= a.len(),
    ensures
        keyed_changes(a, b, k, pairs_of(a, b, k), n, floats) == picked(
            paired_change(a, b, k, floats),
            n,
        ),
    decreases n,
{
    if n > 0 {
        lemma_keyed_changes(a, b, k, floats, (n - 1) as nat);
    }
}

proof fn lemma_alone(a: Seq<Json>, b: Seq<Json>, k: Seq<Seq<Seq<char>>>, n: nat)
    requires
        n <= a.len(),
    ensures
        alone(a, pairs_of(a, b, k), b.len() as int, n) == picked(gone_at(a, b, k), n),
    decreases n,
{
    if n > 0 {
        lemma_alone(a, b, k, (n - 1) as nat);
    }
}

proof fn lemma_unmatched(a: Seq<Json>, b: Seq<Json>, k: Seq<Seq<Seq<char>>>, n: nat)
    requires
        n <= b.len(),
    ensures
        unmatched(b, pairs_of(a, b, k), n) == picked(new_at(a, b, k), n),
    decreases n,
{
    if n > 0 {
        lemma_unmatched(a, b, k, (n - 1) as nat);
    }
}

/// Lists that are compared by key list every element without a partner as
/// removed or added, and every pair that differs with its key, both positions,
/// and what changed, each in order; nothing differs where there is none of
/// these.
pub proof fn law_keyed_lists_every_change(
    a: Seq<Json>,
    b: Seq<Json>,
    k: Seq<Seq<Seq<char>>>,
    floats: FloatTexts<'_>,
)
    ensures
        keyed(a, b, k, floats) == no_diff() ==> ({
            &&& holds_picks(Seq::empty(), paired_change(a, b, k, floats), a.len())
            &&& holds_picks(Seq::empty(), gone_at(a, b, k), a.len())
            &&& holds_picks(Seq::empty(), new_at(a, b, k), b.len())
        }),
        keyed(a, b, k, floats) != no_diff() ==> ({
            let d = difference_in(keyed(a, b, k, floats));
            &&& d is Some
            &&& describes(d->Some_0, "keyed"@, a.len() as int, b.len() as int)
            &&& holds_picks(
                list_under(d->Some_0, "changed"@),
                paired_change(a, b, k, floats),
                a.len(),
            )
            &&& holds_picks(list_under(d->Some_0, "removed"@), gone_at(a, b, k), a.len())
            &&& holds_picks(list_under(d->Some_0, "added"@), new_at(a, b, k), b.len())
        }),
{
    let changed = picked(paired_change(a, b, k, floats), a.len());
    let removed = picked(gone_at(a, b, k), a.len());
    let added = picked(new_at(a, b, k), b.len());
    lemma_keyed_changes(a, b, k, floats, a.len());
    lemma_alone(a, b, k, a.len());
    lemma_unmatched(a, b, k, b.len());
    let _ = lemma_picked(paired_change(a, b, k, floats), a.len());
    let _ = lemma_picked(gone_at(a, b, k), a.len());
    let _ = lemma_picked(new_at(a, b, k), b.len());
    if added.len() == 0 && removed.len() == 0 && changed.len() == 0 {
        assert(keyed(a, b, k, floats) == no_diff());
        assert(changed =~= Seq::empty());
        assert(removed =~= Seq::empty());
        assert(added =~= Seq::empty());
    } else {
        lemma_names_differ();
        let base = counts("keyed"@, a.len() as int, b.len() as int);
        lemma_counts("keyed"@, a.len() as int, b.len() as int);
        let fields = Json::Arr(crate::diff::array_diff::key_fields(k));
        let o = put(base, "key_fields"@, fields);
        let o1 = put_list(o, "added"@, added);
        let o2 = put_list(o1, "removed"@, removed);
        let o3 = put_list(o2, "changed"@, changed);
        lemma_envelope(o3);
        lemma_through(base, fields, added, removed, changed, "strategy"@);
        lemma_through(base, fields, added, removed, changed, "count_from"@);
        lemma_through(base, fields, added, removed, changed, "count_to"@);
        lemma_through(base, fields, added, removed, changed, "added"@);
        lemma_through(base, fields, added, removed, changed, "removed"@);
        lemma_through(base, fields, added, removed, changed, "changed"@);
        assert(list_under(o3, "changed"@) =~= changed);
        assert(list_under(o3, "removed"@) =~= removed);
        assert(list_under(o3, "added"@) =~= added);
        assert(keyed(a, b, k, floats) == envelope(o3));
        assert(describes(o3, "keyed"@, a.len() as int, b.len() as int));
    }
}

proof fn lemma_through(
    base: Entries,
    fields: Json,
    added: Seq<Json>,
    removed: Seq<Json>,
    changed: Seq<Json>,
    j: Seq<char>,
)
    requires
        j != "key_fields"@,
    ensures
        get(
            put_list(
                put_list(
                    put_list(put(base, "key_fields"@, fields), "added"@, added),
                    "removed"@,
                    removed,
                ),
                "changed"@,
                changed,
            ),
            j,
        ) == if j == "changed"@ && changed.len() > 0 {
            Some(Json::Arr(changed))
        } else if j == "removed"@ && removed.len() > 0 {
            Some(Json::Arr(removed))
        } else if j == "added"@ && added.len() > 0 {
            Some(Json::Arr(added))
        } else {
            get(base, j)
        },
{
    let o = put(base, "key_fields"@, fields);
    law_get_after_put(base, "key_fields"@, fields, j);
    lemma_put_list(o, "added"@, added, j);
    lemma_put_list(put_list(o, "added"@, added), "removed"@, removed, j);
    lemma_put_list(
        put_list(put_list(o, "added"@, added), "removed"@, removed),
        "changed"@,
        changed,
        j,
    );
}

// ── As multisets ───────────────────────────────────────────────────────────
/// Lists of scalars list what one has more often than the other, as often as
/// that, as added or as removed, in the order of how it reads; nothing differs
/// where each value stands equally often in both.
pub proof fn law_scalars_are_counted(a: Seq<Json>, b: Seq<Json>, floats: FloatTexts<'_>, x: Json)
    ensures
        multiset_diff(a, b, floats) == no_diff() ==> occurrences(a, x, a.len()) == occurrences(
            b,
            x,
            b.len(),
        ),
        multiset_diff(a, b, floats) != no_diff() ==> (difference_in(
            multiset_diff(a, b, floats),
        ) matches Some(d) && describes(d, "set"@, a.len() as int, b.len() as int) && {
            let added = list_under(d, "added"@);
            let removed = list_under(d, "removed"@);
            let plus = occurrences(added, x, added.len());
            let minus = occurrences(removed, x, removed.len());
            &&& occurrences(a, x, a.len()) + plus == occurrences(b, x, b.len()) + minus
            &&& plus == 0 || minus == 0
            &&& read_in_order(added, floats)
            &&& read_in_order(removed, floats)
            &&& added.len() > 0 || removed.len() > 0
        }),
{
    let t = tally_of(a, b, floats);
    let added = crate::diff::array_diff::gained(t, t.len(), 1);
    let removed = crate::diff::array_diff::gained(t, t.len(), -1);
    law_multiset_balance(a, b, x, floats);
    law_multiset_is_ordered(a, b, floats);
    let base = counts("set"@, a.len() as int, b.len() as int);
    lemma_counts("set"@, a.len() as int, b.len() as int);
    lemma_names_differ();
    let o1 = put_list(base, "added"@, added);
    let o2 = put_list(o1, "removed"@, removed);
    lemma_envelope(o2);
    lemma_two_lists(base, "added"@, added, "removed"@, removed);
    assert(list_under(o2, "added"@) =~= added);
    assert(list_under(o2, "removed"@) =~= removed);
}

proof fn lemma_two_lists(
    base: Entries,
    p: Seq<char>,
    x: Seq<Json>,
    q: Seq<char>,
    y: Seq<Json>,
)
    requires
        p != q,
    ensures
        forall|j: Seq<char>| #[trigger]
            get(put_list(put_list(base, p, x), q, y), j) == if j == q && y.len() > 0 {
                Some(Json::Arr(y))
            } else if j == p && x.len() > 0 {
                Some(Json::Arr(x))
            } else {
                get(base, j)
            },
{
    assert forall|j: Seq<char>| #[trigger] get(put_list(put_list(base, p, x), q, y), j) == if j == q
        && y.len() > 0 {
        Some(Json::Arr(y))
    } else if j == p && x.len() > 0 {
        Some(Json::Arr(x))
    } else {
        get(base, j)
    } by {
        lemma_put_list(base, p, x, j);
        lemma_put_list(put_list(base, p, x), q, y, j);
    }
}

// ── By alignment ───────────────────────────────────────────────────────────
/// Lists without keys list what their alignment leaves out of each, and say
/// how many elements it keeps.
pub proof fn law_unkeyed_lists_the_alignment(a: Seq<Json>, b: Seq<Json>)
    ensures
        difference_in(unkeyed_diff(a, b)) matches Some(d) && describes(
            d,
            "unkeyed"@,
            a.len() as int,
            b.len() as int,
        ) && get(d, "unchanged_count"@) == Some(Json::Int(aligned(a, b).unchanged)) && list_under(
            d,
            "removed"@,
        ) == aligned(a, b).removed && list_under(d, "added"@) == aligned(a, b).added,
{
    let m = aligned(a, b);
    let base = counts("unkeyed"@, a.len() as int, b.len() as int);
    lemma_counts("unkeyed"@, a.len() as int, b.len() as int);
    lemma_names_differ();
    let n = Json::Int(m.unchanged);
    let o = put(base, "unchanged_count"@, n);
    law_get_after_put(base, "unchanged_count"@, n, "strategy"@);
    law_get_after_put(base, "unchanged_count"@, n, "count_from"@);
    law_get_after_put(base, "unchanged_count"@, n, "count_to"@);
    law_get_after_put(base, "unchanged_count"@, n, "added"@);
    law_get_after_put(base, "unchanged_count"@, n, "removed"@);
    law_get_after_put(base, "unchanged_count"@, n, "unchanged_count"@);
    lemma_two_lists(o, "removed"@, m.removed, "added"@, m.added);
    let d = put_list(put_list(o, "removed"@, m.removed), "added"@, m.added);
    lemma_envelope(d);
    assert(list_under(d, "removed"@) =~= m.removed);
    assert(list_under(d, "added"@) =~= m.added);
}

// ── Which way lists are compared ───────────────────────────────────────────
/// Equal lists do not differ. Scalars are compared as multisets; lists of
/// lists of the same length by position; objects by a key that tells them
/// apart, where their shape suggests one, and without one by position where
/// the lengths are the same; all else by alignment.
pub proof fn law_how_lists_are_compared(a: Seq<Json>, b: Seq<Json>, floats: FloatTexts<'_>)
    ensures
        ({
            let r = list_diff(a, b, floats);
            let scalars = (forall|i: int| 0 <= i < a.len() ==> !((#[trigger] a[i]) is Obj) && !(a[i]
                is Arr)) && (forall|i: int|
                0 <= i < b.len() ==> !((#[trigger] b[i]) is Obj) && !(b[i] is Arr));
            let arrays = (forall|i: int| 0 <= i < a.len() ==> (#[trigger] a[i]) is Arr) && (forall|
                i: int,
            |
                0 <= i < b.len() ==> (#[trigger] b[i]) is Arr);
            let objects = (forall|i: int| 0 <= i < a.len() ==> (#[trigger] a[i]) is Obj) && (
            forall|i: int| 0 <= i < b.len() ==> (#[trigger] b[i]) is Obj);
            let first = if a.len() > 0 {
                a[0]
            } else {
                b[0]
            };
            let key = key_for(first->Obj_0);
            &&& same_all(a, b) ==> r == no_diff()
            &&& !same_all(a, b) && scalars ==> r == multiset_diff(a, b, floats)
            &&& !same_all(a, b) && !scalars && arrays && a.len() == b.len() ==> r == positional(
                a,
                b,
                floats,
            )
            &&& !same_all(a, b) && !scalars && arrays && a.len() != b.len() ==> r == unkeyed_diff(
                a,
                b,
            )
            &&& !same_all(a, b) && !scalars && !arrays && !objects ==> r == unkeyed_diff(a, b)
            &&& !same_all(a, b) && !scalars && objects && key is None && a.len() == b.len() ==> r
                == positional(a, b, floats)
            &&& !same_all(a, b) && !scalars && objects && key is None && a.len() != b.len() ==> r
                == unkeyed_diff(a, b)
            &&& !same_all(a, b) && !scalars && objects && key is Some ==> match widened(
                a,
                b,
                key->Some_0,
                first->Obj_0,
            ) {
                Some(w) => r == keyed(a, b, w, floats),
                None => r == unkeyed_diff(a, b),
            }
        }),
{
    if a.len() > 0 {
        let x = a[0];
    }
    if b.len() > 0 {
        let y = b[0];
    }
}

} // verus!
