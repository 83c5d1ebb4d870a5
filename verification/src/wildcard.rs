//! Patterns that search matches texts against.
use crate::text::{chars_of, lowercase, to_lower};
use vstd::prelude::*;

verus! {

/// Whether `part` stands somewhere in `whole`.
pub open spec fn holds_part(whole: Seq<char>, part: Seq<char>) -> bool {
    exists|i: int|
        0 <= i <= whole.len() - part.len() && #[trigger] whole.subrange(i, i + part.len()) == part
}

/// Whether all of `t` matches the pattern `p`, where `*` stands for any run of
/// characters.
pub open spec fn glob(p: Seq<char>, t: Seq<char>) -> bool
    decreases p.len() + t.len(),
{
    if p.len() == 0 {
        t.len() == 0
    } else if p[0] == '*' {
        glob(p.drop_first(), t) || (t.len() > 0 && glob(p, t.drop_first()))
    } else {
        t.len() > 0 && t[0] == p[0] && glob(p.drop_first(), t.drop_first())
    }
}

/// Whether `t` matches `p`, whatever the case of their letters: a pattern
/// without `*` is looked for anywhere in the text, and an empty pattern or a
/// single `*` matches every text.
pub open spec fn matches_pattern(p: Seq<char>, t: Seq<char>) -> bool {
    if p.len() == 0 || p == seq!['*'] {
        true
    } else if p.contains('*') {
        glob(lowercase(p), lowercase(t))
    } else {
        holds_part(lowercase(t), lowercase(p))
    }
}

/// Whether `c` is one of `v`.
pub fn holds_char(v: &Vec<char>, c: char) -> (r: bool)
    ensures
        r == v@.contains(c),
{
    let mut i: usize = 0;
    while i < v.len()
        invariant
            i <= v.len(),
            forall|j: int| 0 <= j < i ==> v@[j] != c,
        decreases v.len() - i,
    {
        if v[i] == c {
            assert(v@[i as int] == c);
            return true;
        }
        i += 1;
    }
    false
}

/// Whether `part` stands in `whole` at `at`.
fn stands_at(whole: &Vec<char>, part: &Vec<char>, at: usize) -> (r: bool)
    requires
        at + part.len() <= whole.len(),
    ensures
        r == (whole@.subrange(at as int, at + part.len()) == part@),
{
    let mut i: usize = 0;
    while i < part.len()
        invariant
            i <= part.len(),
            at + part.len() <= whole.len(),
            forall|j: int| 0 <= j < i ==> whole@[at + j] == part@[j],
        decreases part.len() - i,
    {
        if whole[at + i] != part[i] {
            assert(whole@.subrange(at as int, at + part.len())[i as int] != part@[i as int]);
            return false;
        }
        i += 1;
    }
    assert(whole@.subrange(at as int, at + part.len()) =~= part@);
    true
}

/// Whether `part` stands somewhere in `whole`.
pub fn chars_hold(whole: &Vec<char>, part: &Vec<char>) -> (r: bool)
    ensures
        r == holds_part(whole@, part@),
{
    if part.len() > whole.len() {
        return false;
    }
    let mut at: usize = 0;
    while at < whole.len() - part.len()
        invariant
            part.len() <= whole.len(),
            at <= whole.len() - part.len(),
            forall|i: int|
                0 <= i < at ==> #[trigger] whole@.subrange(i, i + part@.len()) != part@,
        decreases whole.len() - at,
    {
        if stands_at(whole, part, at) {
            return true;
        }
        at += 1;
    }
    stands_at(whole, part, at)
}

/// Whether a text holds another, whatever the case of their letters.
pub fn contains_nocase(whole: &str, part: &str) -> (r: bool)
    ensures
        r == holds_part(lowercase(whole@), lowercase(part@)),
{
    chars_hold(&chars_of(&to_lower(whole)), &chars_of(&to_lower(part)))
}

/// Whether all of `t` matches the pattern `p`.
#[verifier::loop_isolation(false)]
pub fn glob_chars(p: &Vec<char>, t: &Vec<char>) -> (r: bool)
    ensures
        r == glob(p@, t@),
{
    let mut row: Vec<bool> = Vec::new();
    let mut i: usize = 0;
    while i < t.len()
        invariant
            i <= t.len(),
            row.len() == i,
            forall|j: int| 0 <= j < i ==> #[trigger] row@[j] == glob(p@.skip(p@.len() as int), t@.skip(j)),
        decreases t.len() - i,
    {
        row.push(false);
        i += 1;
    }
    row.push(true);
    assert(t@.skip(t@.len() as int).len() == 0);
    let mut k: usize = p.len();
    while k > 0
        invariant
            k <= p.len(),
            row.len() == t.len() + 1,
            forall|j: int| 0 <= j <= t.len() ==> #[trigger] row@[j] == glob(p@.skip(k as int), t@.skip(j)),
        decreases k,
    {
        let ghost below = row@;
        let ghost rest = p@.skip(k as int);
        k -= 1;
        let c: char = p[k];
        let ghost here = p@.skip(k as int);
        assert(here.drop_first() =~= rest);
        // The entry behind the one being replaced, as it was and as it is.
        let mut behind: bool = false;
        let mut after: bool = false;
        let mut i: usize = t.len() + 1;
        while i > 0
            invariant
                i <= t.len() + 1,
                row.len() == t.len() + 1,
                forall|j: int| i <= j <= t.len() ==> #[trigger] row@[j] == glob(here, t@.skip(j)),
                forall|j: int| 0 <= j < i ==> #[trigger] row@[j] == below[j],
                i <= t.len() ==> behind == below[i as int],
                i <= t.len() ==> after == row@[i as int],
            decreases i,
        {
            i -= 1;
            assert(i < t.len() ==> t@.skip(i as int).drop_first() =~= t@.skip(i + 1));
            let old_value: bool = row[i];
            assert(old_value == below[i as int]);
            let new_value: bool = if c == '*' {
                old_value || (i < t.len() && after)
            } else {
                i < t.len() && t[i] == c && behind
            };
            row.set(i, new_value);
            behind = old_value;
            after = new_value;
        }
    }
    assert(p@.skip(0) =~= p@);
    assert(t@.skip(0) =~= t@);
    row[0]
}

/// Whether a text matches a pattern.
pub fn wildcard_match(pattern: &str, text: &str) -> (r: bool)
    ensures
        r == matches_pattern(pattern@, text@),
{
    let p = chars_of(pattern);
    if p.len() == 0 || (p.len() == 1 && p[0] == '*') {
        assert(p.len() == 1 ==> p@ =~= seq!['*']);
        return true;
    }
    if holds_char(&p, '*') {
        glob_chars(&chars_of(&to_lower(pattern)), &chars_of(&to_lower(text)))
    } else {
        contains_nocase(text, pattern)
    }
}

/// A pattern that ends in `*` matches every text that begins with what stands
/// before, if that has no `*` of its own.
pub proof fn law_glob_prefix(p: Seq<char>, t: Seq<char>)
    requires
        p.len() > 0,
        p.last() == '*',
        !p.drop_last().contains('*'),
    ensures
        glob(p, t) == p.drop_last().is_prefix_of(t),
    decreases p.len() + t.len(),
{
    let head = p.drop_last();
    if p.len() == 1 {
        assert(p[0] == '*');
        if t.len() > 0 {
            law_glob_prefix(p, t.drop_first());
            assert(p.drop_last().is_prefix_of(t.drop_first()));
        } else {
            assert(glob(p.drop_first(), t));
        }
        assert(head =~= t.take(0));
    } else {
        assert(head[0] == p[0]);
        assert(head.contains(p[0]));
        if t.len() > 0 && t[0] == p[0] {
            let q = p.drop_first();
            assert(q.drop_last() =~= head.drop_first());
            assert forall|c: char| q.drop_last().contains(c) implies head.contains(c) by {
                let i = choose|i: int| 0 <= i < q.drop_last().len() && q.drop_last()[i] == c;
                assert(head[i + 1] == c);
            }
            law_glob_prefix(q, t.drop_first());
            let s = t.drop_first();
            if q.drop_last().is_prefix_of(s) {
                assert(head =~= t.take(head.len() as int)) by {
                    assert forall|i: int| 0 <= i < head.len() implies head[i] == t[i] by {
                        if i > 0 {
                            assert(q.drop_last()[i - 1] == s.take(q.drop_last().len() as int)[i - 1]);
                        }
                    }
                }
            }
            if head.is_prefix_of(t) {
                assert(q.drop_last() =~= s.take(q.drop_last().len() as int)) by {
                    assert forall|i: int| 0 <= i < q.drop_last().len() implies q.drop_last()[i]
                        == s[i] by {
                        assert(head[i + 1] == t.take(head.len() as int)[i + 1]);
                    }
                }
            }
        } else if head.is_prefix_of(t) {
            assert(head[0] == t[0]);
        }
    }
}

/// A pattern without `*` matches itself alone.
pub proof fn law_glob_plain(p: Seq<char>, t: Seq<char>)
    requires
        !p.contains('*'),
    ensures
        glob(p, t) == (p == t),
    decreases p.len(),
{
    if p.len() == 0 {
        assert(t.len() == 0 ==> p =~= t);
    } else {
        assert(p.contains(p[0]));
        if t.len() > 0 && t[0] == p[0] {
            assert forall|c: char| p.drop_first().contains(c) implies p.contains(c) by {
                let i = choose|i: int| 0 <= i < p.drop_first().len() && p.drop_first()[i] == c;
                assert(p[i + 1] == c);
            }
            law_glob_plain(p.drop_first(), t.drop_first());
            if p.drop_first() == t.drop_first() {
                assert forall|i: int| 0 < i < p.len() implies p[i] == t[i] by {
                    assert(p.drop_first()[i - 1] == t.drop_first()[i - 1]);
                }
                assert(p.len() == t.len()) by {
                    assert(p.drop_first().len() == t.drop_first().len());
                }
                assert(p =~= t);
            }
        }
    }
}

} // verus!
