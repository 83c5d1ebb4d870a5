//! The order of texts, and what it gives to objects and to sorted lists of
//! texts.
use crate::json::{del, get, has_key, put, slot, Entries, Json};
use crate::text::{bytes_lt, lemma_utf8_injective, str_eq, str_lt, text_lt, texts};
use vstd::prelude::*;
use vstd::utf8::*;

verus! {

proof fn lemma_bytes_irreflexive(a: Seq<u8>)
    ensures
        !bytes_lt(a, a),
    decreases a.len(),
{
    if a.len() > 0 {
        lemma_bytes_irreflexive(a.drop_first());
    }
}

proof fn lemma_bytes_transitive(a: Seq<u8>, b: Seq<u8>, c: Seq<u8>)
    requires
        bytes_lt(a, b),
        bytes_lt(b, c),
    ensures
        bytes_lt(a, c),
    decreases a.len(),
{
    if a.len() > 0 && a[0] == b[0] && b[0] == c[0] {
        lemma_bytes_transitive(a.drop_first(), b.drop_first(), c.drop_first());
    }
}

proof fn lemma_bytes_total(a: Seq<u8>, b: Seq<u8>)
    ensures
        bytes_lt(a, b) || bytes_lt(b, a) || a == b,
    decreases a.len(),
{
    if a.len() == 0 || b.len() == 0 {
        if a.len() == b.len() {
            assert(a =~= b);
        }
    } else if a[0] == b[0] {
        lemma_bytes_total(a.drop_first(), b.drop_first());
        if a.drop_first() == b.drop_first() {
            assert(a =~= seq![a[0]] + a.drop_first());
            assert(b =~= seq![b[0]] + b.drop_first());
        }
    }
}

/// No text comes before itself.
pub proof fn law_text_order_irreflexive(a: Seq<char>)
    ensures
        !text_lt(a, a),
{
    lemma_bytes_irreflexive(encode_utf8(a));
}

/// The order of texts is transitive.
pub proof fn law_text_order_transitive(a: Seq<char>, b: Seq<char>, c: Seq<char>)
    requires
        text_lt(a, b),
        text_lt(b, c),
    ensures
        text_lt(a, c),
{
    lemma_bytes_transitive(encode_utf8(a), encode_utf8(b), encode_utf8(c));
}

/// Of two different texts one comes before the other.
pub proof fn law_text_order_total(a: Seq<char>, b: Seq<char>)
    ensures
        text_lt(a, b) || text_lt(b, a) || a == b,
{
    lemma_bytes_total(encode_utf8(a), encode_utf8(b));
    if encode_utf8(a) == encode_utf8(b) {
        lemma_utf8_injective(a, b);
    }
}

// ── Objects ────────────────────────────────────────────────────────────────
/// Whether the keys of an object increase.
pub open spec fn keys_increase(o: Entries) -> bool {
    forall|i: int, j: int| 0 <= i < j < o.len() ==> text_lt((#[trigger] o[i]).0, (#[trigger] o[j]).0)
}

proof fn lemma_slot(o: Entries, k: Seq<char>)
    ensures
        0 <= slot(o, k) <= o.len(),
        slot(o, k) < o.len() ==> o[slot(o, k)].0 == k || text_lt(k, o[slot(o, k)].0),
        forall|i: int|
            0 <= i < slot(o, k) ==> (#[trigger] o[i]).0 != k && text_lt(o[i].0, k),
    decreases o.len(),
{
    if !(o.len() == 0 || o[0].0 == k || text_lt(k, o[0].0)) {
        lemma_slot(o.drop_first(), k);
        law_text_order_total(o[0].0, k);
        assert forall|i: int| 0 <= i < slot(o, k) implies (#[trigger] o[i]).0 != k && text_lt(
            o[i].0,
            k,
        ) by {
            if i > 0 {
                assert(o[i] == o.drop_first()[i - 1]);
            }
        }
    }
}

proof fn lemma_get(o: Entries, k: Seq<char>, i: int)
    requires
        0 <= i < o.len(),
        o[i].0 == k,
        forall|j: int| 0 <= j < i ==> (#[trigger] o[j]).0 != k,
    ensures
        get(o, k) == Some(o[i].1),
    decreases o.len(),
{
    if i > 0 {
        assert(o[0].0 != k);
        assert(o.drop_first()[i - 1] == o[i]);
        assert forall|j: int| 0 <= j < i - 1 implies (#[trigger] o.drop_first()[j]).0 != k by {
            assert(o.drop_first()[j] == o[j + 1]);
        }
        lemma_get(o.drop_first(), k, i - 1);
    }
}

proof fn lemma_get_absent(o: Entries, k: Seq<char>)
    requires
        forall|j: int| 0 <= j < o.len() ==> (#[trigger] o[j]).0 != k,
    ensures
        get(o, k) is None,
    decreases o.len(),
{
    if o.len() > 0 {
        assert(o[0].0 != k);
        assert forall|j: int| 0 <= j < o.drop_first().len() implies (#[trigger] o.drop_first()[j]).0
            != k by {
            assert(o.drop_first()[j] == o[j + 1]);
        }
        lemma_get_absent(o.drop_first(), k);
    }
}

/// Where the keys of an object increase, they still do after an insertion.
pub proof fn law_put_keeps_order(o: Entries, k: Seq<char>, v: Json)
    requires
        keys_increase(o),
    ensures
        keys_increase(put(o, k, v)),
{
    lemma_slot(o, k);
    let i = slot(o, k);
    let n = put(o, k, v);
    if !(i < o.len() && o[i].0 == k) {
        assert forall|a: int, b: int| 0 <= a < b < n.len() implies text_lt(
            (#[trigger] n[a]).0,
            (#[trigger] n[b]).0,
        ) by {
            let x = if a < i {
                o[a].0
            } else {
                o[a - 1].0
            };
            let y = if b < i {
                o[b].0
            } else {
                o[b - 1].0
            };
            if a == i {
                assert(n[b] == o[b - 1]);
                if b - 1 > i {
                    assert(text_lt(o[i].0, o[b - 1].0));
                    law_text_order_transitive(k, o[i].0, o[b - 1].0);
                }
            } else if b == i {
                assert(n[a] == o[a]);
            } else {
                assert(n[a].0 == x);
                assert(n[b].0 == y);
            }
        }
    }
}

/// What has been put under a key is found there, and what stood under other
/// keys still is.
pub proof fn law_get_after_put(o: Entries, k: Seq<char>, v: Json, other: Seq<char>)
    ensures
        get(put(o, k, v), k) == Some(v),
        other != k ==> get(put(o, k, v), other) == get(o, other),
{
    lemma_slot(o, k);
    let i = slot(o, k);
    let n = put(o, k, v);
    assert forall|j: int| 0 <= j < i implies (#[trigger] n[j]).0 != k by {
        assert(n[j] == o[j]);
    }
    lemma_get(n, k, i);
    if other != k {
        crate::json::lemma_key_index(o, other);
        let p = crate::json::key_index(o, other);
        if p < o.len() {
            let q = if !(i < o.len() && o[i].0 == k) && p >= i {
                p + 1
            } else {
                p
            };
            assert(n[q].0 == other);
            assert forall|j: int| 0 <= j < q implies (#[trigger] n[j]).0 != other by {
                if j < i {
                    assert(n[j] == o[j]);
                } else if !(i < o.len() && o[i].0 == k) && j > i {
                    assert(n[j] == o[j - 1]);
                } else if j > i {
                    assert(n[j] == o[j]);
                }
            }
            lemma_get(n, other, q);
        } else {
            assert forall|j: int| 0 <= j < n.len() implies (#[trigger] n[j]).0 != other by {
                if j < i {
                    assert(n[j] == o[j]);
                } else if !(i < o.len() && o[i].0 == k) && j > i {
                    assert(n[j] == o[j - 1]);
                } else if j > i {
                    assert(n[j] == o[j]);
                }
            }
            lemma_get_absent(n, other);
        }
    }
}

/// A key that has been removed is gone, and the other keys keep their values.
pub proof fn law_get_after_del(o: Entries, k: Seq<char>, other: Seq<char>)
    requires
        keys_increase(o),
    ensures
        !has_key(del(o, k), k),
        other != k ==> get(del(o, k), other) == get(o, other),
        keys_increase(del(o, k)),
    decreases o.len(),
{
    if o.len() > 0 {
        let rest = o.drop_first();
        assert(keys_increase(rest)) by {
            assert forall|i: int, j: int| 0 <= i < j < rest.len() implies text_lt(
                (#[trigger] rest[i]).0,
                (#[trigger] rest[j]).0,
            ) by {
                assert(rest[i] == o[i + 1] && rest[j] == o[j + 1]);
            }
        }
        if o[0].0 == k {
            assert forall|j: int| 0 <= j < rest.len() implies (#[trigger] rest[j]).0 != k by {
                assert(rest[j] == o[j + 1]);
                assert(text_lt(o[0].0, o[j + 1].0));
                law_text_order_irreflexive(k);
            }
            lemma_get_absent(rest, k);
        } else {
            law_get_after_del(rest, k, other);
            lemma_del_subset(rest, k);
            let d = del(rest, k);
            let n = del(o, k);
            assert(n =~= seq![o[0]] + d);
            assert(n.drop_first() =~= d);
            assert forall|i: int, j: int| 0 <= i < j < n.len() implies text_lt(
                (#[trigger] n[i]).0,
                (#[trigger] n[j]).0,
            ) by {
                assert(n[j] == d[j - 1]);
                if i > 0 {
                    assert(n[i] == d[i - 1]);
                } else {
                    assert(rest.contains(d[j - 1]));
                    let p = choose|p: int| 0 <= p < rest.len() && rest[p] == d[j - 1];
                    assert(o[p + 1] == rest[p]);
                }
            }
        }
    }
}

proof fn lemma_del_subset(o: Entries, k: Seq<char>)
    ensures
        forall|j: int| 0 <= j < del(o, k).len() ==> o.contains(#[trigger] del(o, k)[j]),
    decreases o.len(),
{
    if o.len() > 0 {
        let d = del(o, k);
        if o[0].0 == k {
            assert forall|j: int| 0 <= j < d.len() implies o.contains(#[trigger] d[j]) by {
                assert(o[j + 1] == d[j]);
            }
        } else {
            lemma_del_subset(o.drop_first(), k);
            let e = del(o.drop_first(), k);
            assert forall|j: int| 0 <= j < d.len() implies o.contains(#[trigger] d[j]) by {
                if j == 0 {
                    assert(o[0] == d[0]);
                } else {
                    assert(d[j] == e[j - 1]);
                    assert(o.drop_first().contains(e[j - 1]));
                    let p = choose|p: int|
                        0 <= p < o.drop_first().len() && o.drop_first()[p] == e[j - 1];
                    assert(o[p + 1] == d[j]);
                }
            }
        }
    }
}

// ── Sorted lists of texts ──────────────────────────────────────────────────
/// Whether texts increase.
pub open spec fn texts_increase(list: Seq<Seq<char>>) -> bool {
    forall|i: int, j: int|
        0 <= i < j < list.len() ==> text_lt(#[trigger] list[i], #[trigger] list[j])
}

/// Where `t` stands in a sorted list, or where it would be put in.
pub open spec fn place(list: Seq<Seq<char>>, t: Seq<char>) -> int
    decreases list.len(),
{
    if list.len() == 0 || !text_lt(list[0], t) {
        0
    } else {
        1 + place(list.drop_first(), t)
    }
}

/// A sorted list with `t` among its texts.
pub open spec fn joined(list: Seq<Seq<char>>, t: Seq<char>) -> Seq<Seq<char>> {
    let i = place(list, t);
    if 0 <= i < list.len() && list[i] == t {
        list
    } else {
        list.insert(i, t)
    }
}

/// Puts `t` in its place in a sorted list, unless it is there.
pub fn join_text(list: &mut Vec<String>, t: &str)
    ensures
        texts(final(list)@) == joined(texts(old(list)@), t@),
{
    let ghost all = texts(list@);
    let mut i: usize = 0;
    assert(all.skip(0) =~= all);
    while i < list.len() && str_lt(&list[i], t)
        invariant
            i <= list.len(),
            all == texts(list@),
            place(all, t@) == i + place(all.skip(i as int), t@),
        decreases list.len() - i,
    {
        assert(all.skip(i as int)[0] == list@[i as int]@);
        assert(all.skip(i as int).drop_first() =~= all.skip(i + 1));
        i += 1;
    }
    assert(i < all.len() ==> all.skip(i as int)[0] == list@[i as int]@);
    assert(place(all, t@) == i);
    if i < list.len() && str_eq(&list[i], t) {
        return;
    }
    assert(i < all.len() ==> all[i as int] == list@[i as int]@);
    list.insert(i, t.to_owned());
    assert(texts(list@) =~= all.insert(i as int, t@));
}

/// A sorted list stays sorted when a text joins it, which is then among its
/// texts; no other text comes or goes.
pub proof fn law_joined(list: Seq<Seq<char>>, t: Seq<char>)
    requires
        texts_increase(list),
    ensures
        texts_increase(joined(list, t)),
        forall|x: Seq<char>| #[trigger]
            joined(list, t).contains(x) <==> (x == t || list.contains(x)),
        joined(list, t).len() <= list.len() + 1,
        joined(list, t).len() >= list.len(),
{
    lemma_place(list, t);
    let i = place(list, t);
    let n = joined(list, t);
    if i < list.len() && list[i] == t {
        assert(list.contains(t));
    } else {
        if i < list.len() {
            law_text_order_total(list[i], t);
        }
        assert forall|a: int, b: int| 0 <= a < b < n.len() implies text_lt(
            #[trigger] n[a],
            #[trigger] n[b],
        ) by {
            if a == i {
                assert(n[b] == list[b - 1]);
                if b - 1 > i {
                    assert(text_lt(list[i], list[b - 1]));
                    law_text_order_transitive(t, list[i], list[b - 1]);
                }
            } else if b == i {
                assert(n[a] == list[a]);
            } else {
                let p = if a < i {
                    a
                } else {
                    a - 1
                };
                let q = if b < i {
                    b
                } else {
                    b - 1
                };
                assert(n[a] == list[p] && n[b] == list[q]);
            }
        }
        assert forall|x: Seq<char>| #[trigger] n.contains(x) <==> (x == t || list.contains(x)) by {
            if n.contains(x) && x != t {
                let j = choose|j: int| 0 <= j < n.len() && n[j] == x;
                if j < i {
                    assert(list[j] == x);
                } else {
                    assert(list[j - 1] == x);
                }
            }
            if x == t {
                assert(n[i] == t);
            } else if list.contains(x) {
                let j = choose|j: int| 0 <= j < list.len() && list[j] == x;
                if j < i {
                    assert(n[j] == x);
                } else {
                    assert(n[j + 1] == x);
                }
            }
        }
    }
}

proof fn lemma_place(list: Seq<Seq<char>>, t: Seq<char>)
    ensures
        0 <= place(list, t) <= list.len(),
        place(list, t) < list.len() ==> !text_lt(list[place(list, t)], t),
        forall|i: int| 0 <= i < place(list, t) ==> text_lt(#[trigger] list[i], t),
    decreases list.len(),
{
    if !(list.len() == 0 || !text_lt(list[0], t)) {
        lemma_place(list.drop_first(), t);
        assert forall|i: int| 0 <= i < place(list, t) implies text_lt(#[trigger] list[i], t) by {
            if i > 0 {
                assert(list[i] == list.drop_first()[i - 1]);
            }
        }
    }
}

} // verus!
