//! FormIDs: the 32-bit names of records.
use crate::error::Error;
use crate::text::{
    all_digits, bytes_lt, char_digit, chars_of, digit, digit_value, digits_value, fixed_hex, hex8,
    hex8_string, lemma_utf8_injective, parse_chars, parse_uint, text_lt, trim_chars, trim_front,
    trimmed, whitespace,
};
use vstd::prelude::*;
use vstd::utf8::*;

verus! {

pub const HARDCODED_MAX: u32 = 0x800;

/// The name of a record.
#[derive(Debug, Clone, Copy, PartialEq, Eq, Hash, Structural)]
pub struct FormId(pub u32);

impl FormId {
    /// The FormID with the number `raw`.
    pub fn new(raw: u32) -> (r: FormId)
        ensures
            r.0 == raw,
    {
        FormId(raw)
    }

    /// The number of this FormID.
    pub fn raw(self) -> (r: u32)
        ensures
            r == self.0,
    {
        self.0
    }

    /// The number of the file that the record belongs to: the top byte.
    pub fn master_index(self) -> (r: u8)
        ensures
            r as int == self.0 as int / 0x100_0000,
    {
        (self.0 / 0x100_0000) as u8
    }

    /// The number of the record within its file: the low three bytes.
    pub fn object_id(self) -> (r: u32)
        ensures
            r as int == self.0 as int % 0x100_0000,
    {
        self.0 % 0x100_0000
    }

    /// Whether the number is one of those that the game itself defines.
    pub fn is_hardcoded(self) -> (b: bool)
        ensures
            b == (self.0 < HARDCODED_MAX),
    {
        self.0 < HARDCODED_MAX
    }

    /// `0x` and eight upper-case hexadecimal digits.
    pub fn display(self) -> (s: String)
        ensures
            s@ == hex8(self.0),
    {
        hex8_string(self.0)
    }
}

/// Whether `s` starts with `0x` or `0X`.
pub open spec fn hex_prefixed(s: Seq<char>) -> bool {
    s.len() >= 2 && s[0] == '0' && (s[1] == 'x' || s[1] == 'X')
}

/// Whether a character of `s` is an ASCII letter.
pub open spec fn has_letter(s: Seq<char>) -> bool {
    exists|i: int|
        0 <= i < s.len() && (('a' <= #[trigger] s[i] && s[i] <= 'z') || ('A' <= s[i] && s[i]
            <= 'Z'))
}

/// The number that `s` names, once trimmed: hexadecimal after `0x`,
/// hexadecimal when it has up to eight hexadecimal digits with a letter among
/// them, and decimal otherwise.
pub open spec fn form_number(s: Seq<char>) -> Option<int> {
    let t = trimmed(s);
    if hex_prefixed(t) {
        parse_uint(t.skip(2), 16, u32::MAX as int)
    } else if all_digits(t, 16) && t.len() <= 8 && has_letter(t) {
        parse_uint(t, 16, u32::MAX as int)
    } else {
        parse_uint(t, 10, u32::MAX as int)
    }
}

/// The FormID that `s` names.
pub open spec fn form_id_of(s: Seq<char>) -> Option<FormId> {
    match form_number(s) {
        Some(n) => Some(FormId(n as u32)),
        None => None,
    }
}

/// Whether every character is a digit of base `base`.
pub fn chars_all_digits(v: &Vec<char>, from: usize, base: u8) -> (r: bool)
    requires
        from <= v.len(),
    ensures
        r == all_digits(v@.skip(from as int), base as int),
{
    let mut i: usize = from;
    while i < v.len()
        invariant
            from <= i <= v.len(),
            forall|j: int| from <= j < i ==> digit_value(#[trigger] v@[j]) < base,
        decreases v.len() - i,
    {
        if char_digit(v[i]) >= base {
            assert(v@.skip(from as int)[i - from] == v@[i as int]);
            return false;
        }
        i += 1;
    }
    true
}

/// Parses a FormID.
pub fn parse_formid(s: &str) -> (r: Result<FormId, Error>)
    ensures
        match r {
            Ok(id) => form_id_of(s@) == Some(id),
            Err(e) => form_id_of(s@) is None && e == Error::NotAFormId,
        },
{
    let t = trim_chars(s);
    assert(t@.skip(0) =~= t@);
    let n = if t.len() >= 2 && t[0] == '0' && (t[1] == 'x' || t[1] == 'X') {
        parse_chars(&t, 2, 16, u32::MAX as u64)
    } else {
        let mut letter = false;
        let mut i: usize = 0;
        while i < t.len()
            invariant
                i <= t.len(),
                letter == has_letter(t@.take(i as int)),
            decreases t.len() - i,
        {
            let c = t[i];
            let ghost before = t@.take(i as int);
            let ghost after = t@.take(i + 1);
            let is_letter = ('a' <= c && c <= 'z') || ('A' <= c && c <= 'Z');
            proof {
                assert(after[i as int] == c);
                assert(forall|j: int| 0 <= j < i ==> before[j] == after[j]);
                if has_letter(before) {
                    let k = choose|k: int|
                        0 <= k < before.len() && (('a' <= #[trigger] before[k] && before[k] <= 'z')
                            || ('A' <= before[k] && before[k] <= 'Z'));
                    assert(after[k] == before[k]);
                }
                if has_letter(after) && !is_letter {
                    let k = choose|k: int|
                        0 <= k < after.len() && (('a' <= #[trigger] after[k] && after[k] <= 'z')
                            || ('A' <= after[k] && after[k] <= 'Z'));
                    assert(before[k] == after[k]);
                }
            }
            letter = letter || is_letter;
            i += 1;
        }
        assert(t@.take(t@.len() as int) =~= t@);
        if letter && t.len() <= 8 && chars_all_digits(&t, 0, 16) {
            parse_chars(&t, 0, 16, u32::MAX as u64)
        } else {
            parse_chars(&t, 0, 10, u32::MAX as u64)
        }
    };
    match n {
        Some(n) => Ok(FormId(n as u32)),
        None => Err(Error::NotAFormId),
    }
}

/// The digits of [`fixed_hex`] write the number that they came from.
pub proof fn lemma_fixed_hex_value(n: nat, k: nat, upper: bool)
    requires
        n < vstd::arithmetic::power::pow(16, k),
    ensures
        fixed_hex(n, k, upper).len() == k,
        all_digits(fixed_hex(n, k, upper), 16),
        digits_value(fixed_hex(n, k, upper), 16) == n,
        forall|i: int|
            0 <= i < k ==> !whitespace(#[trigger] fixed_hex(n, k, upper)[i]) && fixed_hex(
                n,
                k,
                upper,
            )[i] != '+',
    decreases k,
{
    if k == 0 {
        vstd::arithmetic::power::lemma_pow0(16);
    } else {
        let m = (k - 1) as nat;
        vstd::arithmetic::power::lemma_pow_adds(16, m, 1);
        vstd::arithmetic::power::lemma_pow1(16);
        assert(n / 16 < vstd::arithmetic::power::pow(16, m)) by (nonlinear_arith)
            requires
                n < vstd::arithmetic::power::pow(16, m) * 16,
        ;
        lemma_fixed_hex_value(n / 16, m, upper);
        let s = fixed_hex(n, k, upper);
        let front = fixed_hex(n / 16, m, upper);
        let d = digit((n % 16) as int, upper);
        assert(s.drop_last() =~= front);
        assert(s.last() == d);
        assert(digit_value(d) == n % 16);
        assert(!whitespace(d));
        assert forall|i: int| 0 <= i < k implies digit_value(#[trigger] s[i]) < 16
            && !whitespace(s[i]) && s[i] != '+' by {
            if i < m {
                assert(s[i] == front[i]);
            }
        }
    }
}

/// Text that neither starts nor ends with white space is its own trimming.
pub proof fn lemma_trim_nothing(s: Seq<char>)
    requires
        s.len() > 0,
        !whitespace(s[0]),
        !whitespace(s.last()),
    ensures
        trimmed(s) == s,
{
    assert(trim_front(s) == s);
}

/// What `display` writes, `parse_formid` reads back.
pub proof fn law_display_parses(id: FormId)
    ensures
        form_id_of(hex8(id.0)) == Some(id),
{
    let digits8 = fixed_hex(id.0 as nat, 8, true);
    assert(id.0 < vstd::arithmetic::power::pow(16, 8)) by {
        reveal(vstd::arithmetic::power::pow);
        assert(vstd::arithmetic::power::pow(16, 8) == 0x1_0000_0000) by {
            reveal_with_fuel(vstd::arithmetic::power::pow, 9);
        }
    }
    lemma_fixed_hex_value(id.0 as nat, 8, true);
    let s = hex8(id.0);
    assert(s.len() == 10);
    assert(s[0] == '0' && s[1] == 'x');
    assert(s.last() == digits8[7]);
    lemma_trim_nothing(s);
    assert(s.skip(2) =~= digits8);
    assert(digits8[0] != '+');
}

/// Two FormIDs that display alike are the same.
pub proof fn law_display_injective(a: FormId, b: FormId)
    requires
        hex8(a.0) == hex8(b.0),
    ensures
        a == b,
{
    law_display_parses(a);
    law_display_parses(b);
}

/// Whether `c` is an upper-case hexadecimal digit.
pub open spec fn upper_hex_digit(c: char) -> bool {
    '0' <= c <= '9' || 'A' <= c <= 'F'
}

proof fn lemma_fixed_hex_upper(n: nat, k: nat)
    ensures
        fixed_hex(n, k, true).len() == k,
        forall|i: int| 0 <= i < k ==> upper_hex_digit(#[trigger] fixed_hex(n, k, true)[i]),
    decreases k,
{
    if k > 0 {
        lemma_fixed_hex_upper(n / 16, (k - 1) as nat);
    }
}

/// A displayed FormID is `0x` and eight upper-case hexadecimal digits.
pub proof fn law_display_form(id: FormId)
    ensures
        hex8(id.0).len() == 10,
        hex8(id.0)[0] == '0',
        hex8(id.0)[1] == 'x',
        forall|i: int| 2 <= i < 10 ==> upper_hex_digit(#[trigger] hex8(id.0)[i]),
{
    let f = fixed_hex(id.0 as nat, 8, true);
    lemma_fixed_hex_upper(id.0 as nat, 8);
    assert forall|i: int| 2 <= i < 10 implies upper_hex_digit(#[trigger] hex8(id.0)[i]) by {
        assert(hex8(id.0)[i] == f[i - 2]);
    }
}

proof fn lemma_bytes_push(a: Seq<u8>, b: Seq<u8>, x: u8, y: u8)
    requires
        a.len() == b.len(),
    ensures
        bytes_lt(a.push(x), b.push(y)) == (bytes_lt(a, b) || (a == b && x < y)),
    decreases a.len(),
{
    let ax = a.push(x);
    let by = b.push(y);
    if a.len() == 0 {
        assert(a =~= b);
        assert(!bytes_lt(ax.drop_first(), by.drop_first()));
    } else {
        assert(ax.drop_first() =~= a.drop_first().push(x));
        assert(by.drop_first() =~= b.drop_first().push(y));
        lemma_bytes_push(a.drop_first(), b.drop_first(), x, y);
        if a.drop_first() == b.drop_first() && a[0] == b[0] {
            assert(a =~= seq![a[0]] + a.drop_first());
            assert(b =~= seq![b[0]] + b.drop_first());
        }
    }
}

/// The UTF-8 bytes of upper-case hexadecimal digits are their codes.
proof fn lemma_hex_bytes(s: Seq<char>)
    requires
        forall|i: int| 0 <= i < s.len() ==> upper_hex_digit(#[trigger] s[i]),
    ensures
        encode_utf8(s) == s.map_values(|c: char| c as u8),
{
    assert(is_ascii_chars(s));
    is_ascii_chars_encode_utf8(s);
    assert(encode_utf8(s) =~= s.map_values(|c: char| c as u8));
}

proof fn lemma_fixed_hex_order(n: nat, m: nat, k: nat)
    requires
        n < vstd::arithmetic::power::pow(16, k),
        m < vstd::arithmetic::power::pow(16, k),
    ensures
        text_lt(fixed_hex(n, k, true), fixed_hex(m, k, true)) <==> n < m,
        fixed_hex(n, k, true) == fixed_hex(m, k, true) <==> n == m,
    decreases k,
{
    let fa = fixed_hex(n, k, true);
    let fb = fixed_hex(m, k, true);
    lemma_fixed_hex_upper(n, k);
    lemma_fixed_hex_upper(m, k);
    lemma_hex_bytes(fa);
    lemma_hex_bytes(fb);
    if k == 0 {
        vstd::arithmetic::power::lemma_pow0(16);
    } else {
        let j = (k - 1) as nat;
        vstd::arithmetic::power::lemma_pow_adds(16, j, 1);
        vstd::arithmetic::power::lemma_pow1(16);
        let p = vstd::arithmetic::power::pow(16, j);
        assert(n / 16 < p && m / 16 < p) by (nonlinear_arith)
            requires
                n < p * 16,
                m < p * 16,
        ;
        lemma_fixed_hex_order(n / 16, m / 16, j);
        let ha = fixed_hex(n / 16, j, true);
        let hb = fixed_hex(m / 16, j, true);
        lemma_fixed_hex_upper(n / 16, j);
        lemma_fixed_hex_upper(m / 16, j);
        lemma_hex_bytes(ha);
        lemma_hex_bytes(hb);
        let da = digit((n % 16) as int, true);
        let db = digit((m % 16) as int, true);
        assert(encode_utf8(fa) =~= encode_utf8(ha).push(da as u8));
        assert(encode_utf8(fb) =~= encode_utf8(hb).push(db as u8));
        lemma_bytes_push(encode_utf8(ha), encode_utf8(hb), da as u8, db as u8);
        if encode_utf8(ha) == encode_utf8(hb) {
            lemma_utf8_injective(ha, hb);
        }
        assert(fa.drop_last() =~= ha && fb.drop_last() =~= hb);
        assert(fa.last() == da && fb.last() == db);
        assert(((da as u8) < (db as u8)) <==> n % 16 < m % 16);
        assert(da == db <==> n % 16 == m % 16);
    }
}

/// FormIDs are in the order of what they display as.
pub proof fn law_display_order(a: FormId, b: FormId)
    ensures
        text_lt(hex8(a.0), hex8(b.0)) <==> a.0 < b.0,
{
    assert(vstd::arithmetic::power::pow(16, 8) == 0x1_0000_0000) by {
        reveal(vstd::arithmetic::power::pow);
        reveal_with_fuel(vstd::arithmetic::power::pow, 9);
    }
    lemma_fixed_hex_order(a.0 as nat, b.0 as nat, 8);
    lemma_hex8_bytes(a.0);
    lemma_hex8_bytes(b.0);
    let ea = encode_utf8(hex8(a.0));
    let eb = encode_utf8(hex8(b.0));
    assert(bytes_lt(ea, eb) == bytes_lt(ea.drop_first(), eb.drop_first()));
    assert(bytes_lt(ea.drop_first(), eb.drop_first()) == bytes_lt(
        ea.drop_first().drop_first(),
        eb.drop_first().drop_first(),
    ));
}

proof fn lemma_hex8_bytes(n: u32)
    ensures
        encode_utf8(hex8(n)).len() == 10,
        encode_utf8(hex8(n))[0] == 48,
        encode_utf8(hex8(n))[1] == 120,
        encode_utf8(hex8(n)).drop_first().drop_first() == encode_utf8(
            fixed_hex(n as nat, 8, true),
        ),
{
    let f = fixed_hex(n as nat, 8, true);
    let s = hex8(n);
    lemma_fixed_hex_upper(n as nat, 8);
    lemma_hex_bytes(f);
    law_display_form(FormId(n));
    assert(is_ascii_chars(s));
    is_ascii_chars_encode_utf8(s);
    let e = encode_utf8(s);
    assert forall|i: int| 2 <= i < 10 implies e[i] == f[i - 2] as u8 by {
        assert(s[i] == f[i - 2]);
    }
    assert(e.drop_first().drop_first() =~= encode_utf8(f));
}

/// Whether `s` reads as a FormID: after an optional `0x`, one to eight
/// hexadecimal digits.
pub open spec fn formid_like(s: Seq<char>) -> bool {
    let t = trimmed(s);
    let body = if hex_prefixed(t) {
        t.skip(2)
    } else {
        t
    };
    0 < body.len() <= 8 && all_digits(body, 16)
}

/// Whether `s` looks like a FormID rather than an EditorID.
pub fn looks_like_formid(s: &str) -> (r: bool)
    ensures
        r == formid_like(s@),
{
    let t = trim_chars(s);
    assert(t@.skip(0) =~= t@);
    let from: usize = if t.len() >= 2 && t[0] == '0' && (t[1] == 'x' || t[1] == 'X') {
        2
    } else {
        0
    };
    t.len() > from && t.len() - from <= 8 && chars_all_digits(&t, from, 16)
}

/// Parses a FormID as a user writes it.
pub fn parse_form_id_input(s: &str) -> (r: Result<FormId, Error>)
    ensures
        match r {
            Ok(id) => form_id_of(s@) == Some(id),
            Err(e) => form_id_of(s@) is None && e == Error::NotAFormId,
        },
{
    parse_formid(s)
}

/// Whether `s` is exactly `0x` and eight hexadecimal digits, as a decoded
/// FormID reads.
pub open spec fn decoded_formid(s: Seq<char>) -> bool {
    s.len() == 10 && s[0] == '0' && s[1] == 'x' && all_digits(s.skip(2), 16)
}

/// Whether `s` is exactly `0x` and eight hexadecimal digits.
pub fn is_formid_str(s: &str) -> (r: bool)
    ensures
        r == decoded_formid(s@),
{
    let v = chars_of(s);
    v.len() == 10 && v[0] == '0' && v[1] == 'x' && chars_all_digits(&v, 2, 16)
}

/// A displayed FormID is recognised as one.
pub proof fn law_display_is_decoded_formid(id: FormId)
    ensures
        decoded_formid(hex8(id.0)),
{
    law_display_parses(id);
    let digits8 = fixed_hex(id.0 as nat, 8, true);
    assert(id.0 < vstd::arithmetic::power::pow(16, 8)) by {
        assert(vstd::arithmetic::power::pow(16, 8) == 0x1_0000_0000) by {
            reveal_with_fuel(vstd::arithmetic::power::pow, 9);
        }
    }
    lemma_fixed_hex_value(id.0 as nat, 8, true);
    assert(hex8(id.0).skip(2) =~= digits8);
}

/// `b` to the power of `k`.
spec fn power(b: int, k: nat) -> int
    decreases k,
{
    if k == 0 {
        1
    } else {
        power(b, (k - 1) as nat) * b
    }
}

proof fn lemma_power_grows(b: int, k: nat, m: nat)
    requires
        b >= 1,
        k <= m,
    ensures
        1 <= power(b, k) <= power(b, m),
    decreases m,
{
    if k < m {
        lemma_power_grows(b, k, (m - 1) as nat);
        let p = power(b, (m - 1) as nat);
        assert(p * b >= p) by (nonlinear_arith)
            requires
                p >= 1,
                b >= 1,
        ;
    } else if k > 0 {
        lemma_power_grows(b, (k - 1) as nat, (k - 1) as nat);
        let p = power(b, (k - 1) as nat);
        assert(p * b >= 1) by (nonlinear_arith)
            requires
                p >= 1,
                b >= 1,
        ;
    }
}

proof fn lemma_digits_bound(s: Seq<char>, base: int)
    requires
        base >= 1,
        all_digits(s, base),
    ensures
        0 <= digits_value(s, base) < power(base, s.len()),
    decreases s.len(),
{
    if s.len() > 0 {
        let head = s.drop_last();
        assert forall|i: int| 0 <= i < head.len() implies digit_value(#[trigger] head[i]) < base by {
            assert(head[i] == s[i]);
        }
        lemma_digits_bound(head, base);
        let v = digits_value(head, base);
        let p = power(base, head.len());
        let d = digit_value(s.last());
        assert(0 <= d < base) by {
            assert(digit_value(s[s.len() - 1]) < base);
        }
        assert(0 <= v * base + d < p * base) by (nonlinear_arith)
            requires
                0 <= v < p,
                0 <= d < base,
                base >= 1,
        ;
    }
}

/// What looks like a FormID is one.
pub proof fn law_formid_like_parses(s: Seq<char>)
    requires
        formid_like(s),
    ensures
        form_id_of(s) is Some,
{
    let t = trimmed(s);
    let body = if hex_prefixed(t) {
        t.skip(2)
    } else {
        t
    };
    assert(body[0] != '+') by {
        assert(digit_value(body[0]) < 16);
    }
    assert(power(16, 8) == 0x1_0000_0000 && power(10, 8) == 100_000_000) by {
        reveal_with_fuel(power, 9);
    }
    lemma_digits_bound(body, 16);
    lemma_power_grows(16, body.len(), 8);
    if !hex_prefixed(t) && !has_letter(t) {
        assert forall|i: int| 0 <= i < t.len() implies digit_value(#[trigger] t[i]) < 10 by {
            assert(digit_value(t[i]) < 16);
        }
        lemma_digits_bound(t, 10);
        lemma_power_grows(10, t.len(), 8);
    }
}

} // verus!
