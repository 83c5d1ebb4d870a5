//! Text primitives: what the rest of the library says about strings is said
//! over the characters (`Seq<char>`) or the UTF-8 bytes defined here.
use vstd::prelude::*;
use vstd::utf8::*;

verus! {

/// `String::push` appends one character.
pub assume_specification[ std::string::String::push ](s: &mut std::string::String, c: char)
    ensures
        final(s)@ == old(s)@.push(c),
;

/// Lexicographic order on byte sequences.
pub open spec fn bytes_lt(a: Seq<u8>, b: Seq<u8>) -> bool
    decreases a.len(),
{
    if b.len() == 0 {
        false
    } else if a.len() == 0 {
        true
    } else if a[0] != b[0] {
        a[0] < b[0]
    } else {
        bytes_lt(a.drop_first(), b.drop_first())
    }
}

/// The order of strings: lexicographic by UTF-8 byte value.
pub open spec fn text_lt(a: Seq<char>, b: Seq<char>) -> bool {
    bytes_lt(encode_utf8(a), encode_utf8(b))
}

/// Two texts with the same UTF-8 bytes are the same text.
pub proof fn lemma_utf8_injective(a: Seq<char>, b: Seq<char>)
    requires
        encode_utf8(a) == encode_utf8(b),
    ensures
        a == b,
{
    encode_utf8_decode_utf8(a);
    encode_utf8_decode_utf8(b);
}

/// Whether two byte slices hold the same bytes.
pub fn bytes_eq(a: &[u8], b: &[u8]) -> (r: bool)
    ensures
        r == (a@ == b@),
{
    if a.len() != b.len() {
        return false;
    }
    let mut i: usize = 0;
    while i < a.len()
        invariant
            a.len() == b.len(),
            i <= a.len(),
            forall|j: int| 0 <= j < i ==> a@[j] == b@[j],
        decreases a.len() - i,
    {
        if a[i] != b[i] {
            return false;
        }
        i += 1;
    }
    assert(a@ =~= b@);
    true
}

/// Whether two strings are the same text.
pub fn str_eq(a: &str, b: &str) -> (r: bool)
    ensures
        r == (a@ == b@),
{
    let r = bytes_eq(a.as_bytes(), b.as_bytes());
    proof {
        if r {
            lemma_utf8_injective(a@, b@);
        }
    }
    r
}

/// Whether `a` comes before `b` in byte order.
pub fn slice_lt(a: &[u8], b: &[u8]) -> (r: bool)
    ensures
        r == bytes_lt(a@, b@),
{
    let mut i: usize = 0;
    proof {
        assert(a@.subrange(0, a@.len() as int) =~= a@);
        assert(b@.subrange(0, b@.len() as int) =~= b@);
    }
    while i < a.len() && i < b.len()
        invariant
            i <= a.len(),
            i <= b.len(),
            bytes_lt(a@, b@) == bytes_lt(
                a@.subrange(i as int, a@.len() as int),
                b@.subrange(i as int, b@.len() as int),
            ),
        decreases a.len() - i,
    {
        if a[i] != b[i] {
            return a[i] < b[i];
        }
        proof {
            assert(a@.subrange(i as int, a@.len() as int).drop_first() =~= a@.subrange(
                i + 1,
                a@.len() as int,
            ));
            assert(b@.subrange(i as int, b@.len() as int).drop_first() =~= b@.subrange(
                i + 1,
                b@.len() as int,
            ));
        }
        i += 1;
    }
    i < b.len()
}

/// Whether `a` comes before `b`.
pub fn str_lt(a: &str, b: &str) -> (r: bool)
    ensures
        r == text_lt(a@, b@),
{
    slice_lt(a.as_bytes(), b.as_bytes())
}

/// The characters of a string, in order.
pub fn chars_of(s: &str) -> (v: Vec<char>)
    ensures
        v@ == s@,
{
    let mut v: Vec<char> = Vec::new();
    for c in it: s.chars()
        invariant
            it.seq() == s@,
            v@ == s@.take(it.index() as int),
    {
        v.push(c);
        assert(v@ =~= s@.take(it.index() + 1));
    }
    assert(s@.take(s@.len() as int) =~= s@);
    v
}

/// The string with the characters `v[from..to]`.
pub fn string_of(v: &Vec<char>, from: usize, to: usize) -> (s: String)
    requires
        from <= to <= v.len(),
    ensures
        s@ == v@.subrange(from as int, to as int),
{
    let mut s = String::new();
    let mut i: usize = from;
    while i < to
        invariant
            from <= i <= to <= v.len(),
            s@ == v@.subrange(from as int, i as int),
        decreases to - i,
    {
        s.push(v[i]);
        i += 1;
        assert(s@ =~= v@.subrange(from as int, i as int));
    }
    s
}


// ── Numbers as text ────────────────────────────────────────────────────────
/// The digit with value `d`, in lower or upper case.
pub open spec fn digit(d: int, upper: bool) -> char {
    if d < 10 {
        (48 + d) as u8 as char
    } else if upper {
        (55 + d) as u8 as char
    } else {
        (87 + d) as u8 as char
    }
}

/// The digits of `n` in base `base`, without leading zeros.
pub open spec fn digits(n: nat, base: nat, upper: bool) -> Seq<char>
    decreases n,
{
    if n < base || base < 2 || n / base >= n {
        seq![digit(n as int, upper)]
    } else {
        digits(n / base, base, upper).push(digit((n % base) as int, upper))
    }
}

/// The last `k` hexadecimal digits of `n`.
pub open spec fn fixed_hex(n: nat, k: nat, upper: bool) -> Seq<char>
    decreases k,
{
    if k == 0 {
        Seq::empty()
    } else {
        fixed_hex(n / 16, (k - 1) as nat, upper).push(digit((n % 16) as int, upper))
    }
}

/// `n` in decimal.
pub open spec fn decimal(n: int) -> Seq<char> {
    if n < 0 {
        seq!['-'] + digits((-n) as nat, 10, false)
    } else {
        digits(n as nat, 10, false)
    }
}

/// `n` as `0x` and eight upper-case digits.
pub open spec fn hex8(n: u32) -> Seq<char> {
    seq!['0', 'x'] + fixed_hex(n as nat, 8, true)
}

/// `n` as `0x` and upper-case digits without leading zeros.
pub open spec fn hex_upper(n: nat) -> Seq<char> {
    seq!['0', 'x'] + digits(n, 16, true)
}

/// Each byte as two lower-case digits.
pub open spec fn hex_of(data: Seq<u8>) -> Seq<char>
    decreases data.len(),
{
    if data.len() == 0 {
        Seq::empty()
    } else {
        hex_of(data.drop_last()) + fixed_hex(data.last() as nat, 2, false)
    }
}

/// The digit with value `d`.
pub fn digit_char(d: u8, upper: bool) -> (c: char)
    requires
        d < 36,
    ensures
        c == digit(d as int, upper),
{
    if d < 10 {
        (48 + d) as char
    } else if upper {
        (55 + d) as char
    } else {
        (87 + d) as char
    }
}

/// Appends the digits of `n`.
pub fn push_digits(s: &mut String, n: u128, base: u128, upper: bool)
    requires
        2 <= base <= 16,
    ensures
        final(s)@ == old(s)@ + digits(n as nat, base as nat, upper),
    decreases n,
{
    if n < base {
        s.push(digit_char(n as u8, upper));
        assert(s@ =~= old(s)@ + seq![digit(n as int, upper)]);
    } else {
        assert(n / base < n) by (nonlinear_arith)
            requires
                n >= base,
                base >= 2,
        ;
        push_digits(s, n / base, base, upper);
        let ghost mid = s@;
        s.push(digit_char((n % base) as u8, upper));
        assert(s@ =~= old(s)@ + digits(n as nat, base as nat, upper));
    }
}

/// Appends the last `k` hexadecimal digits of `n`.
pub fn push_fixed_hex(s: &mut String, n: u32, k: u32, upper: bool)
    ensures
        final(s)@ == old(s)@ + fixed_hex(n as nat, k as nat, upper),
    decreases k,
{
    if k == 0 {
        assert(s@ =~= old(s)@ + Seq::<char>::empty());
    } else {
        push_fixed_hex(s, n / 16, k - 1, upper);
        s.push(digit_char((n % 16) as u8, upper));
        assert(s@ =~= old(s)@ + fixed_hex(n as nat, k as nat, upper));
    }
}

/// `n` in decimal.
pub fn decimal_string(n: i128) -> (s: String)
    ensures
        s@ == decimal(n as int),
{
    let mut s = String::new();
    if n < 0 {
        s.push('-');
        push_digits(&mut s, (-(n + 1)) as u128 + 1, 10, false);
        assert(s@ =~= decimal(n as int));
    } else {
        push_digits(&mut s, n as u128, 10, false);
        assert(s@ =~= decimal(n as int));
    }
    s
}

/// `n` as `0x` and eight upper-case digits.
pub fn hex8_string(n: u32) -> (s: String)
    ensures
        s@ == hex8(n),
{
    let mut s = String::new();
    s.push('0');
    s.push('x');
    push_fixed_hex(&mut s, n, 8, true);
    assert(s@ =~= hex8(n));
    s
}

/// `n` as `0x` and upper-case digits without leading zeros.
pub fn hex_upper_string(n: u64) -> (s: String)
    ensures
        s@ == hex_upper(n as nat),
{
    let mut s = String::new();
    s.push('0');
    s.push('x');
    push_digits(&mut s, n as u128, 16, true);
    assert(s@ =~= hex_upper(n as nat));
    s
}

/// Each byte as two lower-case digits.
pub fn encode(data: &[u8]) -> (s: String)
    ensures
        s@ == hex_of(data@),
{
    let mut s = String::new();
    let mut i: usize = 0;
    assert(data@.take(0) =~= Seq::<u8>::empty());
    while i < data.len()
        invariant
            i <= data.len(),
            s@ == hex_of(data@.take(i as int)),
        decreases data.len() - i,
    {
        push_fixed_hex(&mut s, data[i] as u32, 2, false);
        i += 1;
        assert(data@.take(i as int).drop_last() =~= data@.take(i - 1));
        assert(data@.take(i as int).last() == data@[i - 1]);
    }
    assert(data@.take(data@.len() as int) =~= data@);
    s
}

// ── Text as numbers ────────────────────────────────────────────────────────
/// The value of an ASCII digit in bases up to sixteen, or 99.
pub open spec fn digit_value(c: char) -> int {
    if '0' <= c && c <= '9' {
        c as int - 48
    } else if 'a' <= c && c <= 'f' {
        c as int - 87
    } else if 'A' <= c && c <= 'F' {
        c as int - 55
    } else {
        99
    }
}

/// Whether every character is a digit of base `base`.
pub open spec fn all_digits(s: Seq<char>, base: int) -> bool {
    forall|i: int| 0 <= i < s.len() ==> digit_value(#[trigger] s[i]) < base
}

/// The number that the digits `s` write.
pub open spec fn digits_value(s: Seq<char>, base: int) -> int
    decreases s.len(),
{
    if s.len() == 0 {
        0
    } else {
        digits_value(s.drop_last(), base) * base + digit_value(s.last())
    }
}

/// Unsigned integer syntax: an optional `+`, then one or more digits that
/// write a number of at most `max`.
pub open spec fn parse_uint(s: Seq<char>, base: int, max: int) -> Option<int> {
    let body = if s.len() > 0 && s[0] == '+' {
        s.drop_first()
    } else {
        s
    };
    if body.len() > 0 && all_digits(body, base) && digits_value(body, base) <= max {
        Some(digits_value(body, base))
    } else {
        None
    }
}

/// The value of an ASCII digit, or 99.
pub fn char_digit(c: char) -> (d: u8)
    ensures
        d as int == digit_value(c),
{
    if '0' <= c && c <= '9' {
        (c as u32 - 48) as u8
    } else if 'a' <= c && c <= 'f' {
        (c as u32 - 87) as u8
    } else if 'A' <= c && c <= 'F' {
        (c as u32 - 55) as u8
    } else {
        99
    }
}

/// Digits to the right only make a number larger.
proof fn lemma_digits_value_prefix(s: Seq<char>, base: int, i: int)
    requires
        0 <= i <= s.len(),
        base >= 2,
        all_digits(s, base),
    ensures
        0 <= digits_value(s.take(i), base) <= digits_value(s, base),
    decreases s.len(),
{
    if i == s.len() {
        assert(s.take(i) =~= s);
        if s.len() > 0 {
            lemma_digits_value_prefix(s.drop_last(), base, s.len() - 1);
            assert(s.drop_last().take(s.len() - 1) =~= s.drop_last());
            assert(digit_value(s.last()) >= 0);
            assert(digits_value(s.drop_last(), base) * base >= 0) by (nonlinear_arith)
                requires
                    digits_value(s.drop_last(), base) >= 0,
                    base >= 2,
            ;
        }
    } else {
        lemma_digits_value_prefix(s.drop_last(), base, i);
        assert(s.drop_last().take(i) =~= s.take(i));
        let d = digits_value(s.drop_last(), base);
        assert(d * base >= d) by (nonlinear_arith)
            requires
                d >= 0,
                base >= 2,
        ;
        assert(digit_value(s.last()) >= 0);
    }
}

/// Parses an unsigned integer.
pub fn parse_chars(v: &Vec<char>, from: usize, base: u64, max: u64) -> (r: Option<u64>)
    requires
        from <= v.len(),
        2 <= base <= 16,
    ensures
        match r {
            Some(n) => parse_uint(v@.skip(from as int), base as int, max as int) == Some(n as int),
            None => parse_uint(v@.skip(from as int), base as int, max as int) is None,
        },
{
    let ghost s = v@.skip(from as int);
    let mut start: usize = from;
    if from < v.len() && v[from] == '+' {
        start = from + 1;
        assert(s.drop_first() =~= v@.skip(start as int));
    }
    let ghost body = v@.skip(start as int);
    assert(body == if s.len() > 0 && s[0] == '+' {
        s.drop_first()
    } else {
        s
    });
    if start >= v.len() {
        return None;
    }
    let mut i: usize = start;
    let mut n: u128 = 0;
    assert(body.take(0) =~= Seq::<char>::empty());
    while i < v.len()
        invariant
            start <= i <= v.len(),
            s == v@.skip(from as int),
            body == v@.skip(start as int),
            2 <= base <= 16,
            n as int == digits_value(body.take(i - start), base as int),
            n <= max,
            all_digits(body.take(i - start), base as int),
            parse_uint(s, base as int, max as int) == (if body.len() > 0 && all_digits(
                body,
                base as int,
            ) && digits_value(body, base as int) <= max {
                Some(digits_value(body, base as int))
            } else {
                None::<int>
            }),
        decreases v.len() - i,
    {
        let d: u8 = char_digit(v[i]);
        let ghost k = i - start;
        assert(body[k] == v@[i as int]);
        if d as u64 >= base {
            assert(digit_value(body[k]) >= base);
            return None;
        }
        assert(n * base <= max * 16) by (nonlinear_arith)
            requires
                n <= max,
                base <= 16,
        ;
        let m: u128 = n * (base as u128) + d as u128;
        assert(body.take(k + 1).drop_last() =~= body.take(k));
        assert(body.take(k + 1).last() == body[k]);
        assert(m as int == digits_value(body.take(k + 1), base as int));
        if m > max as u128 {
            proof {
                if all_digits(body, base as int) {
                    lemma_digits_value_prefix(body, base as int, k + 1);
                }
            }
            return None;
        }
        assert forall|j: int| 0 <= j < k + 1 implies digit_value(
            #[trigger] body.take(k + 1)[j],
        ) < base by {
            if j < k {
                assert(body.take(k)[j] == body[j]);
            }
        }
        n = m;
        i += 1;
    }
    assert(body.take(body.len() as int) =~= body);
    Some(n as u64)
}

// ── Characters ─────────────────────────────────────────────────────────────
/// The white space characters of Unicode.
pub open spec fn whitespace(c: char) -> bool {
    ||| 0x9 <= c as u32 <= 0xD
    ||| c as u32 == 0x20
    ||| c as u32 == 0x85
    ||| c as u32 == 0xA0
    ||| c as u32 == 0x1680
    ||| 0x2000 <= c as u32 <= 0x200A
    ||| c as u32 == 0x2028
    ||| c as u32 == 0x2029
    ||| c as u32 == 0x202F
    ||| c as u32 == 0x205F
    ||| c as u32 == 0x3000
}

/// Whether `c` is white space.
pub fn is_whitespace(c: char) -> (b: bool)
    ensures
        b == whitespace(c),
{
    let n: u32 = c as u32;
    (0x9 <= n && n <= 0xD) || n == 0x20 || n == 0x85 || n == 0xA0 || n == 0x1680 || (0x2000 <= n
        && n <= 0x200A) || n == 0x2028 || n == 0x2029 || n == 0x202F || n == 0x205F || n == 0x3000
}

/// `s` without its leading white space.
pub open spec fn trim_front(s: Seq<char>) -> Seq<char>
    decreases s.len(),
{
    if s.len() > 0 && whitespace(s[0]) {
        trim_front(s.drop_first())
    } else {
        s
    }
}

/// `s` without its trailing white space.
pub open spec fn trim_back(s: Seq<char>) -> Seq<char>
    decreases s.len(),
{
    if s.len() > 0 && whitespace(s.last()) {
        trim_back(s.drop_last())
    } else {
        s
    }
}

/// `s` without leading and trailing white space.
pub open spec fn trimmed(s: Seq<char>) -> Seq<char> {
    trim_back(trim_front(s))
}

/// The first character from `from` on that is not white space.
pub fn skip_whitespace(v: &Vec<char>, from: usize) -> (i: usize)
    requires
        from <= v.len(),
    ensures
        from <= i <= v.len(),
        trim_front(v@.skip(from as int)) == v@.skip(i as int),
{
    let mut i: usize = from;
    while i < v.len() && is_whitespace(v[i])
        invariant
            from <= i <= v.len(),
            trim_front(v@.skip(from as int)) == trim_front(v@.skip(i as int)),
        decreases v.len() - i,
    {
        assert(v@.skip(i as int).drop_first() =~= v@.skip(i + 1));
        i += 1;
    }
    i
}

/// The characters of `s` without leading and trailing white space.
pub fn trim_chars(s: &str) -> (r: Vec<char>)
    ensures
        r@ == trimmed(s@),
{
    let mut v = chars_of(s);
    let i: usize = skip_whitespace(&v, 0);
    assert(v@.skip(0) =~= v@);
    let mut j: usize = v.len();
    assert(v@.subrange(i as int, j as int) =~= v@.skip(i as int));
    while j > i && is_whitespace(v[j - 1])
        invariant
            i <= j <= v.len(),
            trimmed(s@) == trim_back(v@.subrange(i as int, j as int)),
        decreases j,
    {
        assert(v@.subrange(i as int, j as int).drop_last() =~= v@.subrange(i as int, j - 1));
        j -= 1;
    }
    let mut r: Vec<char> = Vec::new();
    let mut k: usize = i;
    while k < j
        invariant
            i <= k <= j <= v.len(),
            r@ == v@.subrange(i as int, k as int),
        decreases j - k,
    {
        r.push(v[k]);
        k += 1;
        assert(r@ =~= v@.subrange(i as int, k as int));
    }
    r
}

/// The lower-case form of an ASCII letter; any other character as it is.
pub open spec fn ascii_lower(c: char) -> char {
    if 'A' <= c && c <= 'Z' {
        (c as u32 + 32) as u8 as char
    } else {
        c
    }
}

/// Equality up to the case of ASCII letters.
pub open spec fn eq_nocase(a: Seq<char>, b: Seq<char>) -> bool {
    a.len() == b.len() && forall|i: int|
        0 <= i < a.len() ==> ascii_lower(#[trigger] a[i]) == ascii_lower(b[i])
}

/// The lower-case form of an ASCII letter.
pub fn lower_char(c: char) -> (r: char)
    ensures
        r == ascii_lower(c),
{
    if 'A' <= c && c <= 'Z' {
        (c as u32 + 32) as u8 as char
    } else {
        c
    }
}

/// Equality up to the case of ASCII letters.
pub fn chars_eq_nocase(x: &Vec<char>, y: &Vec<char>) -> (r: bool)
    ensures
        r == eq_nocase(x@, y@),
{
    if x.len() != y.len() {
        return false;
    }
    let mut i: usize = 0;
    while i < x.len()
        invariant
            x.len() == y.len(),
            i <= x.len(),
            forall|j: int| 0 <= j < i ==> ascii_lower(#[trigger] x@[j]) == ascii_lower(y@[j]),
        decreases x.len() - i,
    {
        if lower_char(x[i]) != lower_char(y[i]) {
            assert(ascii_lower(x@[i as int]) != ascii_lower(y@[i as int]));
            return false;
        }
        i += 1;
    }
    true
}

/// Equality up to the case of ASCII letters.
pub fn str_eq_nocase(a: &str, b: &str) -> (r: bool)
    ensures
        r == eq_nocase(a@, b@),
{
    chars_eq_nocase(&chars_of(a), &chars_of(b))
}

/// The lower-case form of a text, by the rules of Unicode.
pub uninterp spec fn lowercase(s: Seq<char>) -> Seq<char>;

/// The upper-case form of a text, by the rules of Unicode.
pub uninterp spec fn uppercase(s: Seq<char>) -> Seq<char>;

/// `str::to_lowercase`: a function of the text alone.
#[verifier::external_body]
pub(crate) fn to_lower(s: &str) -> (r: String)
    ensures
        r@ == lowercase(s@),
{
    s.to_lowercase()
}

/// `str::to_uppercase`: a function of the text alone.
#[verifier::external_body]
pub(crate) fn to_upper(s: &str) -> (r: String)
    ensures
        r@ == uppercase(s@),
{
    s.to_uppercase()
}

/// A text in quotes, with what does not print escaped, as Rust writes it.
pub uninterp spec fn debug_form(s: Seq<char>) -> Seq<char>;

/// `Debug` of a `str` by way of `format!`: a function of the text alone.
#[verifier::external_body]
pub(crate) fn debug_string(s: &str) -> (r: String)
    ensures
        r@ == debug_form(s@),
{
    format!("{:?}", s)
}

// ── Bytes as text ──────────────────────────────────────────────────────────
/// What bytes read as text, with replacement characters where they are not
/// UTF-8.
pub uninterp spec fn lossy(data: Seq<u8>) -> Seq<char>;

/// `String::from_utf8_lossy`: a function of the bytes alone; bytes that are
/// UTF-8 read as the text they encode.
#[verifier::external_body]
pub(crate) fn from_lossy(data: &[u8]) -> (r: String)
    ensures
        r@ == lossy(data@),
        valid_utf8(data@) ==> r@ == decode_utf8(data@),
{
    String::from_utf8_lossy(data).into_owned()
}

/// `std::str::from_utf8`: the text that the bytes encode, where they are
/// UTF-8.
#[verifier::external_body]
pub(crate) fn from_utf8(data: &[u8]) -> (r: Option<&str>)
    ensures
        match r {
            Some(s) => valid_utf8(data@) && s@ == decode_utf8(data@),
            None => !valid_utf8(data@),
        },
{
    std::str::from_utf8(data).ok()
}

/// `s` without its trailing `\0` characters.
pub open spec fn trim_nuls(s: Seq<char>) -> Seq<char>
    decreases s.len(),
{
    if s.len() > 0 && s.last() == '\0' {
        trim_nuls(s.drop_last())
    } else {
        s
    }
}

/// `s` without its trailing `\0` characters.
pub fn trim_nuls_string(s: &str) -> (r: String)
    ensures
        r@ == trim_nuls(s@),
{
    let v = chars_of(s);
    let mut j: usize = v.len();
    assert(v@.take(j as int) =~= v@);
    while j > 0 && v[j - 1] == '\0'
        invariant
            j <= v.len(),
            trim_nuls(s@) == trim_nuls(v@.take(j as int)),
        decreases j,
    {
        assert(v@.take(j as int).drop_last() =~= v@.take(j - 1));
        j -= 1;
    }
    assert(v@.subrange(0, j as int) =~= v@.take(j as int));
    string_of(&v, 0, j)
}

/// The part of `data` before its first zero byte.
pub open spec fn before_nul(data: Seq<u8>) -> Seq<u8>
    decreases data.len(),
{
    if data.len() == 0 || data[0] == 0 {
        Seq::empty()
    } else {
        seq![data[0]] + before_nul(data.drop_first())
    }
}

/// The position of the first zero byte, or the length.
pub fn find_nul(data: &[u8]) -> (n: usize)
    ensures
        n <= data@.len(),
        before_nul(data@) == data@.take(n as int),
        n < data@.len() ==> data@[n as int] == 0,
        forall|j: int| 0 <= j < n ==> data@[j] != 0,
{
    let mut i: usize = 0;
    assert(data@.skip(0) =~= data@);
    assert(data@.take(0) + before_nul(data@.skip(0)) =~= before_nul(data@));
    while i < data.len() && data[i] != 0
        invariant
            i <= data.len(),
            before_nul(data@) == data@.take(i as int) + before_nul(data@.skip(i as int)),
            forall|j: int| 0 <= j < i ==> data@[j] != 0,
        decreases data.len() - i,
    {
        assert(data@.skip(i as int).drop_first() =~= data@.skip(i + 1));
        assert(data@.take(i as int) + (seq![data@[i as int]] + before_nul(data@.skip(i + 1)))
            =~= data@.take(i + 1) + before_nul(data@.skip(i + 1)));
        i += 1;
    }
    assert(data@.take(i as int) + Seq::<u8>::empty() =~= data@.take(i as int));
    i
}

/// The concatenation of two texts.
pub fn concat(a: &str, b: &str) -> (r: String)
    ensures
        r@ == a@ + b@,
{
    let mut r = a.to_owned();
    r.append(b);
    r
}

/// The position of the first `c` in `s`, or the length.
pub open spec fn find_char(s: Seq<char>, c: char) -> int
    decreases s.len(),
{
    if s.len() == 0 || s[0] == c {
        0
    } else {
        1 + find_char(s.drop_first(), c)
    }
}

/// The text before and after the first `c`.
pub open spec fn split_once(s: Seq<char>, c: char) -> Option<(Seq<char>, Seq<char>)> {
    let i = find_char(s, c);
    if 0 <= i < s.len() {
        Some((s.take(i), s.skip(i + 1)))
    } else {
        None
    }
}

/// The position of the first `c` from `from` on, or the length.
pub fn find_in(v: &Vec<char>, from: usize, c: char) -> (i: usize)
    requires
        from <= v.len(),
    ensures
        from <= i <= v.len(),
        i - from == find_char(v@.skip(from as int), c),
        i < v.len() ==> v@[i as int] == c,
{
    let mut i: usize = from;
    while i < v.len() && v[i] != c
        invariant
            from <= i <= v.len(),
            find_char(v@.skip(from as int), c) == i - from + find_char(v@.skip(i as int), c),
        decreases v.len() - i,
    {
        assert(v@.skip(i as int).drop_first() =~= v@.skip(i + 1));
        i += 1;
    }
    i
}

/// The text before and after the first `c`.
pub fn split_once_str(s: &str, c: char) -> (r: Option<(String, String)>)
    ensures
        match r {
            Some((a, b)) => split_once(s@, c) == Some((a@, b@)),
            None => split_once(s@, c) is None,
        },
{
    let v = chars_of(s);
    assert(v@.skip(0) =~= v@);
    let i: usize = find_in(&v, 0, c);
    if i < v.len() {
        let a = string_of(&v, 0, i);
        let b = string_of(&v, i + 1, v.len());
        assert(a@ =~= v@.take(i as int));
        assert(b@ =~= v@.skip(i + 1));
        Some((a, b))
    } else {
        None
    }
}

/// Whether `s` is one of `list`.
pub open spec fn contains_text(list: Seq<String>, s: Seq<char>) -> bool {
    exists|i: int| 0 <= i < list.len() && (#[trigger] list[i])@ == s
}

/// Whether `s` is one of `list`.
pub fn list_contains(list: &Vec<String>, s: &str) -> (r: bool)
    ensures
        r == contains_text(list@, s@),
{
    let mut i: usize = 0;
    while i < list.len()
        invariant
            i <= list.len(),
            forall|j: int| 0 <= j < i ==> (#[trigger] list@[j])@ != s@,
        decreases list.len() - i,
    {
        if str_eq(&list[i], s) {
            return true;
        }
        i += 1;
    }
    false
}

/// A borrowed text that may be absent.
pub open spec fn opt_slice(s: Option<&str>) -> Option<Seq<char>> {
    match s {
        Some(s) => Some(s@),
        None => None,
    }
}

/// The texts of a list.
pub open spec fn texts(list: Seq<String>) -> Seq<Seq<char>> {
    list.map_values(|s: String| s@)
}

/// The parts of `s` between the characters `c`.
pub open spec fn split_all(s: Seq<char>, c: char) -> Seq<Seq<char>>
    decreases s.len(),
{
    let i = find_char(s, c);
    if 0 <= i < s.len() {
        seq![s.take(i)] + split_all(s.skip(i + 1), c)
    } else {
        seq![s]
    }
}

/// The parts of a text between the characters `c`.
pub fn split_chars(v: &Vec<char>, c: char) -> (r: Vec<String>)
    ensures
        texts(r@) == split_all(v@, c),
{
    let mut r: Vec<String> = Vec::new();
    let mut from: usize = 0;
    assert(v@.skip(0) =~= v@);
    assert(texts(r@) + split_all(v@, c) =~= split_all(v@, c));
    let mut at: usize = find_in(v, 0, c);
    while at < v.len()
        invariant
            from <= at <= v.len(),
            at - from == find_char(v@.skip(from as int), c),
            split_all(v@, c) == texts(r@) + split_all(v@.skip(from as int), c),
        decreases v.len() - from,
    {
        let ghost before = texts(r@);
        let ghost rest = v@.skip(from as int);
        let part = string_of(v, from, at);
        assert(part@ =~= rest.take(at - from));
        r.push(part);
        from = at + 1;
        assert(texts(r@) =~= before.push(part@));
        assert(v@.skip(from as int) =~= rest.skip(find_char(rest, c) + 1));
        assert(split_all(rest, c) =~= seq![part@] + split_all(v@.skip(from as int), c));
        assert(before + split_all(rest, c) =~= texts(r@) + split_all(v@.skip(from as int), c));
        at = find_in(v, from, c);
    }
    let part = string_of(v, from, v.len());
    assert(part@ =~= v@.skip(from as int));
    let ghost before = texts(r@);
    r.push(part);
    assert(texts(r@) =~= before + seq![part@]);
    r
}

} // verus!
