//! How texts are cut and compared.
use crate::diff::calibrate::{last_segment, leaf_of};
use crate::diff::keys::join_path;
use crate::ipc::{shows_raw, RawRecordView};
use crate::laws::{law_hex_injective, law_hex_length};
use crate::reader::{strip_marker, ParsedRecord};
use crate::text::{
    ascii_lower, eq_nocase, find_char, hex_of, split_once, trim_back, trim_front, trim_nuls,
    trimmed, whitespace,
};
use vstd::prelude::*;

verus! {

// ── Cutting ────────────────────────────────────────────────────────────────
/// Zero characters at the end of a text go, and nothing else does.
pub proof fn law_trailing_zeros_go(t: Seq<char>, n: nat)
    requires
        t.len() == 0 || t.last() != '\0',
    ensures
        trim_nuls(t + Seq::new(n, |i: int| '\0')) == t,
    decreases n,
{
    let s = t + Seq::new(n, |i: int| '\0');
    if n > 0 {
        assert(s.last() == '\0');
        assert(s.drop_last() =~= t + Seq::new((n - 1) as nat, |i: int| '\0'));
        law_trailing_zeros_go(t, (n - 1) as nat);
    } else {
        assert(s =~= t);
    }
}

proof fn lemma_front(a: Seq<char>, t: Seq<char>)
    requires
        forall|i: int| 0 <= i < a.len() ==> whitespace(#[trigger] a[i]),
        t.len() == 0 || !whitespace(t[0]),
    ensures
        trim_front(a + t) == t,
    decreases a.len(),
{
    let s = a + t;
    if a.len() > 0 {
        assert(s[0] == a[0]);
        let b = a.drop_first();
        assert forall|i: int| 0 <= i < b.len() implies whitespace(#[trigger] b[i]) by {
            assert(b[i] == a[i + 1]);
        }
        assert(s.drop_first() =~= b + t);
        lemma_front(b, t);
    } else {
        assert(s =~= t);
    }
}

proof fn lemma_back(t: Seq<char>, a: Seq<char>)
    requires
        forall|i: int| 0 <= i < a.len() ==> whitespace(#[trigger] a[i]),
        t.len() == 0 || !whitespace(t.last()),
    ensures
        trim_back(t + a) == t,
    decreases a.len(),
{
    let s = t + a;
    if a.len() > 0 {
        assert(s.last() == a.last());
        assert(whitespace(a[a.len() - 1]));
        let b = a.drop_last();
        assert forall|i: int| 0 <= i < b.len() implies whitespace(#[trigger] b[i]) by {
            assert(b[i] == a[i]);
        }
        assert(s.drop_last() =~= t + b);
        lemma_back(t, b);
    } else {
        assert(s =~= t);
    }
}

/// White space before and after a text goes, and nothing else does.
pub proof fn law_surrounding_space_goes(a: Seq<char>, t: Seq<char>, b: Seq<char>)
    requires
        t.len() > 0,
        !whitespace(t[0]),
        !whitespace(t.last()),
        forall|i: int| 0 <= i < a.len() ==> whitespace(#[trigger] a[i]),
        forall|i: int| 0 <= i < b.len() ==> whitespace(#[trigger] b[i]),
    ensures
        trimmed(a + (t + b)) == t,
{
    assert((t + b)[0] == t[0]);
    lemma_front(a, t + b);
    lemma_back(t, b);
}

/// The first of a character is found behind what lacks it.
pub proof fn lemma_find(head: Seq<char>, c: char, tail: Seq<char>)
    requires
        !head.contains(c),
    ensures
        find_char(head + seq![c] + tail, c) == head.len(),
        find_char(head, c) == head.len(),
    decreases head.len(),
{
    let s = head + seq![c] + tail;
    if head.len() > 0 {
        assert(head.contains(head[0]));
        let t = head.drop_first();
        if t.contains(c) {
            let i = choose|i: int| 0 <= i < t.len() && t[i] == c;
            assert(head[i + 1] == c);
        }
        lemma_find(t, c, tail);
        assert(s.drop_first() =~= t + seq![c] + tail);
        assert(s[0] == head[0]);
    } else {
        assert(s[0] == c);
    }
}

/// A marker in front of a text goes with the white space behind it.
pub proof fn law_marker_goes(id: Seq<char>, a: Seq<char>, t: Seq<char>)
    requires
        !id.contains('>'),
        forall|i: int| 0 <= i < a.len() ==> whitespace(#[trigger] a[i]),
        t.len() == 0 || !whitespace(t[0]),
    ensures
        strip_marker(seq!['<', 'I', 'D', '='] + id + seq!['>'] + (a + t)) == t,
{
    let head = seq!['<', 'I', 'D', '='] + id;
    let s = head + seq!['>'] + (a + t);
    if head.contains('>') {
        let i = choose|i: int| 0 <= i < head.len() && head[i] == '>';
        if i >= 4 {
            assert(id[i - 4] == '>');
        }
    }
    lemma_find(head, '>', a + t);
    assert(s[0] == '<' && s[1] == 'I' && s[2] == 'D' && s[3] == '=');
    assert(s.skip(head.len() as int + 1) =~= a + t);
    lemma_front(a, t);
}

/// A text that does not start with a marker stays as it is.
pub proof fn law_no_marker_no_cut(s: Seq<char>)
    requires
        !(s.len() >= 4 && s.take(4) == seq!['<', 'I', 'D', '=']),
    ensures
        strip_marker(s) == s,
{
    if s.len() >= 4 && s[0] == '<' && s[1] == 'I' && s[2] == 'D' && s[3] == '=' {
        assert(s.take(4) =~= seq!['<', 'I', 'D', '=']);
    }
}

// ── Letters ────────────────────────────────────────────────────────────────
/// The lower-case form of an ASCII letter is the letter that stands thirty-two
/// places behind it, and of any other character the character itself.
pub proof fn law_lower_case(c: char)
    ensures
        'A' <= c <= 'Z' ==> ascii_lower(c) as int == c as int + 32,
        !('A' <= c <= 'Z') ==> ascii_lower(c) == c,
{
}

/// Equality up to the case of letters is an equality.
pub proof fn law_equal_but_for_case(a: Seq<char>, b: Seq<char>, c: Seq<char>)
    ensures
        eq_nocase(a, a),
        eq_nocase(a, b) ==> eq_nocase(b, a),
        eq_nocase(a, b) && eq_nocase(b, c) ==> eq_nocase(a, c),
{
    if eq_nocase(a, b) {
        assert forall|i: int| 0 <= i < b.len() implies ascii_lower(#[trigger] b[i])
            == ascii_lower(a[i]) by {
            assert(ascii_lower(a[i]) == ascii_lower(b[i]));
        }
        if eq_nocase(b, c) {
            assert forall|i: int| 0 <= i < a.len() implies ascii_lower(#[trigger] a[i])
                == ascii_lower(c[i]) by {
                assert(ascii_lower(b[i]) == ascii_lower(c[i]));
            }
        }
    }
}

// ── Paths ──────────────────────────────────────────────────────────────────
proof fn lemma_last_segment(p: Seq<char>, name: Seq<char>)
    requires
        !name.contains('.'),
    ensures
        last_segment(name) == name,
        last_segment(p + seq!['.'] + name) == name,
    decreases p.len(),
{
    lemma_find(name, '.', Seq::empty());
    assert(last_segment(name) == name);
    let s = p + seq!['.'] + name;
    if p.contains('.') {
        let i = find_char(p, '.');
        lemma_first(p, '.');
        let head = p.take(i);
        let rest = p.skip(i + 1);
        assert(p =~= head + seq!['.'] + rest);
        assert(s =~= head + seq!['.'] + (rest + seq!['.'] + name));
        lemma_find(head, '.', rest + seq!['.'] + name);
        assert(s.skip(i + 1) =~= rest + seq!['.'] + name);
        lemma_last_segment(rest, name);
        assert(split_once(s, '.') == Some((s.take(i), rest + seq!['.'] + name)));
    } else {
        lemma_find(p, '.', name);
        assert(s.skip(p.len() as int + 1) =~= name);
        assert(split_once(s, '.') == Some((s.take(p.len() as int), name)));
    }
}

proof fn lemma_first(s: Seq<char>, c: char)
    requires
        s.contains(c),
    ensures
        0 <= find_char(s, c) < s.len(),
        s[find_char(s, c)] == c,
        !s.take(find_char(s, c)).contains(c),
    decreases s.len(),
{
    if s[0] != c {
        let t = s.drop_first();
        let i = choose|i: int| 0 <= i < s.len() && s[i] == c;
        assert(t[i - 1] == c);
        lemma_first(t, c);
        let n = find_char(s, c);
        if s.take(n).contains(c) {
            let j = choose|j: int| 0 <= j < n && s.take(n)[j] == c;
            assert(t.take(n - 1)[j - 1] == c);
        }
    }
}

/// The name of the field at a path is its last name, whatever stands before it
/// and with or without an index behind it.
pub proof fn law_name_at_a_path(p: Seq<char>, name: Seq<char>)
    requires
        !name.contains('.'),
        !name.contains('['),
    ensures
        leaf_of(name) == name,
        leaf_of(join_path(p, name)) == name,
        leaf_of(join_path(p, name) + seq!['[', ']']) == name,
{
    lemma_last_segment(p, name);
    lemma_find(name, '[', Seq::empty());
    assert(name.take(name.len() as int) =~= name);
    let indexed = name + seq!['[', ']'];
    if indexed.contains('.') {
        let i = choose|i: int| 0 <= i < indexed.len() && indexed[i] == '.';
        assert(name[i] == '.');
    }
    lemma_last_segment(p, indexed);
    lemma_find(name, '[', seq![']']);
    assert(indexed =~= name + seq!['['] + seq![']']);
    assert(indexed.take(name.len() as int) =~= name);
    if p.len() > 0 {
        assert(join_path(p, name) + seq!['[', ']'] =~= p + seq!['.'] + indexed);
    }
}

// ── Raw records ────────────────────────────────────────────────────────────
/// A record in the raw shows every subrecord in order, with its signature, how
/// many bytes it has, and two digits for each of them; equal digits are equal
/// bytes.
pub proof fn law_raw_record_shows_every_byte(
    v: RawRecordView,
    r: ParsedRecord,
    i: int,
    other: Seq<u8>,
)
    requires
        shows_raw(v, r),
        0 <= i < r.subrecords@.len(),
    ensures
        v.subrecords@.len() == r.subrecords@.len(),
        v.subrecords@[i].signature@ == r.subrecords@[i]@.sig,
        v.subrecords@[i].size == r.subrecords@[i]@.data.len(),
        v.subrecords@[i].hex@.len() == 2 * r.subrecords@[i]@.data.len(),
        v.subrecords@[i].hex@ == hex_of(other) ==> other == r.subrecords@[i]@.data,
        v.header@ == r.header@,
{
    let s = v.subrecords@[i];
    law_hex_length(r.subrecords@[i]@.data);
    if s.hex@ == hex_of(other) {
        law_hex_injective(other, r.subrecords@[i]@.data);
    }
}

} // verus!
