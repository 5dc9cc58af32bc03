//! Character-level helpers: Unicode whitespace, ASCII case, UTF-8 sizes, and
//! conversions between `str`/`String` and character sequences.

use vstd::prelude::*;

verus! {

/// The characters of `s`, in order.
pub fn chars_of(s: &str) -> (v: Vec<char>)
    ensures
        v@ == s@,
{
    let mut v: Vec<char> = Vec::new();
    for c in it: s.chars()
        invariant
            v@ == it.seq().take(it.index() as int),
    {
        v.push(c);
    }
    proof {
        assert(v@ == s@);
    }
    v
}

} // verus!

verus! {

/// ASCII lower-case letters mapped to upper case; every other character unchanged.
pub open spec fn ascii_upper(c: char) -> char {
    if 'a' <= c && c <= 'z' {
        ((c as u32 - 32) as u8) as char
    } else {
        c
    }
}

/// `c.to_ascii_uppercase()`.
pub fn to_ascii_upper(c: char) -> (r: char)
    ensures
        r == ascii_upper(c),
{
    if 'a' <= c && c <= 'z' {
        let b = (c as u32 - 32) as u8;
        b as char
    } else {
        c
    }
}

} // verus!

verus! {

/// The Unicode `White_Space` characters (what `char::is_whitespace` accepts).
pub open spec fn is_unicode_whitespace(c: char) -> bool {
    let u = c as u32;
    ||| 0x09 <= u && u <= 0x0D
    ||| u == 0x20
    ||| u == 0x85
    ||| u == 0xA0
    ||| u == 0x1680
    ||| 0x2000 <= u && u <= 0x200A
    ||| u == 0x2028
    ||| u == 0x2029
    ||| u == 0x202F
    ||| u == 0x205F
    ||| u == 0x3000
}

/// `c.is_whitespace()`.
pub fn is_whitespace(c: char) -> (r: bool)
    ensures
        r == is_unicode_whitespace(c),
{
    let u = c as u32;
    (0x09 <= u && u <= 0x0D) || u == 0x20 || u == 0x85 || u == 0xA0 || u == 0x1680 || (0x2000 <= u
        && u <= 0x200A) || u == 0x2028 || u == 0x2029 || u == 0x202F || u == 0x205F || u == 0x3000
}

/// Number of bytes in the UTF-8 encoding of `s`.
pub open spec fn utf8_size(s: Seq<char>) -> nat {
    vstd::utf8::encode_utf8(s).len()
}

/// Number of bytes in the UTF-8 encoding of `c`.
pub open spec fn char_utf8_len(c: char) -> nat {
    let u = c as u32;
    if u < 0x80 {
        1
    } else if u < 0x800 {
        2
    } else if u < 0x10000 {
        3
    } else {
        4
    }
}

/// `c.len_utf8()`.
pub fn utf8_len(c: char) -> (r: usize)
    ensures
        r == char_utf8_len(c),
{
    let u = c as u32;
    if u < 0x80 {
        1
    } else if u < 0x800 {
        2
    } else if u < 0x10000 {
        3
    } else {
        4
    }
}

/// The UTF-8 encoding of a concatenation is the concatenation of the encodings.
pub proof fn lemma_encode_utf8_concat(a: Seq<char>, b: Seq<char>)
    ensures
        vstd::utf8::encode_utf8(a + b) == vstd::utf8::encode_utf8(a) + vstd::utf8::encode_utf8(b),
    decreases a.len(),
{
    if a.len() == 0 {
        assert(a + b =~= b);
        assert(vstd::utf8::encode_utf8(a) =~= Seq::<u8>::empty());
        assert(vstd::utf8::encode_utf8(a) + vstd::utf8::encode_utf8(b) =~= vstd::utf8::encode_utf8(b));
    } else {
        assert((a + b).drop_first() =~= a.drop_first() + b);
        assert((a + b)[0] == a[0]);
        lemma_encode_utf8_concat(a.drop_first(), b);
        let e0 = vstd::utf8::encode_scalar(a[0] as u32);
        assert(vstd::utf8::encode_utf8(a + b) =~= e0 + (vstd::utf8::encode_utf8(a.drop_first()) + vstd::utf8::encode_utf8(b)));
    }
}

/// Appending a character adds its UTF-8 length.
pub proof fn lemma_utf8_size_push(s: Seq<char>, c: char)
    ensures
        utf8_size(s.push(c)) == utf8_size(s) + char_utf8_len(c),
{
    lemma_encode_utf8_concat(s, seq![c]);
    assert(s.push(c) =~= s + seq![c]);
    assert(seq![c].drop_first() =~= Seq::<char>::empty());
    vstd::utf8::char_is_scalar(c);
    assert(vstd::utf8::encode_utf8(Seq::<char>::empty()) =~= Seq::<u8>::empty());
    assert(seq![c][0] == c);
    assert(vstd::utf8::encode_utf8(seq![c]) =~= vstd::utf8::encode_scalar(c as u32) + vstd::utf8::encode_utf8(seq![c].drop_first()));
}

/// Appends `c` to `s` (`String::push`).
#[verifier::external_body]
fn push_char(s: &mut String, c: char)
    ensures
        final(s)@ == old(s)@.push(c),
{
    s.push(c);
}

/// A `String` holding the characters `v`.
pub fn string_from_chars(v: &Vec<char>) -> (s: String)
    ensures
        s@ == v@,
{
    let mut s = String::new();
    let mut i: usize = 0;
    while i < v.len()
        invariant
            i <= v@.len(),
            s@ == v@.take(i as int),
        decreases v@.len() - i,
    {
        proof {
            assert(v@.take(i + 1) =~= v@.take(i as int).push(v@[i as int]));
        }
        push_char(&mut s, v[i]);
        i = i + 1;
    }
    proof {
        assert(v@.take(v@.len() as int) =~= v@);
    }
    s
}

/// `s` without leading whitespace.
pub open spec fn trim_start(s: Seq<char>) -> Seq<char>
    decreases s.len(),
{
    if s.len() > 0 && is_unicode_whitespace(s[0]) {
        trim_start(s.drop_first())
    } else {
        s
    }
}

/// `s` without trailing whitespace.
pub open spec fn trim_end(s: Seq<char>) -> Seq<char>
    decreases s.len(),
{
    if s.len() > 0 && is_unicode_whitespace(s.last()) {
        trim_end(s.drop_last())
    } else {
        s
    }
}

/// `s` without leading or trailing whitespace (`str::trim`).
pub open spec fn trim(s: Seq<char>) -> Seq<char> {
    trim_end(trim_start(s))
}

/// `trim_start` drops exactly the leading run of whitespace ending before `a`.
pub proof fn lemma_trim_start_at(s: Seq<char>, a: int)
    requires
        0 <= a <= s.len(),
        forall|i: int| 0 <= i < a ==> is_unicode_whitespace(#[trigger] s[i]),
        a < s.len() ==> !is_unicode_whitespace(s[a]),
    ensures
        trim_start(s) == s.subrange(a, s.len() as int),
    decreases a,
{
    if a == 0 {
        assert(s.subrange(0, s.len() as int) =~= s);
        if s.len() > 0 {
            assert(!is_unicode_whitespace(s[0]));
        }
    } else {
        assert(is_unicode_whitespace(s[0]));
        let t = s.drop_first();
        assert forall|i: int| 0 <= i < a - 1 implies is_unicode_whitespace(#[trigger] t[i]) by {
            assert(t[i] == s[i + 1]);
        }
        if a - 1 < t.len() {
            assert(t[a - 1] == s[a]);
        }
        lemma_trim_start_at(t, a - 1);
        assert(t.subrange(a - 1, t.len() as int) =~= s.subrange(a, s.len() as int));
    }
}

/// `trim_end` keeps exactly the prefix before the trailing run of whitespace starting at `b`.
pub proof fn lemma_trim_end_at(s: Seq<char>, b: int)
    requires
        0 <= b <= s.len(),
        forall|i: int| b <= i < s.len() ==> is_unicode_whitespace(#[trigger] s[i]),
        b > 0 ==> !is_unicode_whitespace(s[b - 1]),
    ensures
        trim_end(s) == s.subrange(0, b),
    decreases s.len() - b,
{
    if b == s.len() {
        assert(s.subrange(0, b) =~= s);
        if s.len() > 0 {
            assert(!is_unicode_whitespace(s.last()));
        }
    } else {
        assert(is_unicode_whitespace(s.last()));
        let t = s.drop_last();
        assert forall|i: int| b <= i < t.len() implies is_unicode_whitespace(#[trigger] t[i]) by {
            assert(t[i] == s[i]);
        }
        if b > 0 {
            assert(t[b - 1] == s[b - 1]);
        }
        lemma_trim_end_at(t, b);
        assert(t.subrange(0, b) =~= s.subrange(0, b));
    }
}

/// `v` without leading or trailing whitespace.
pub fn trim_chars(v: &Vec<char>) -> (r: Vec<char>)
    ensures
        r@ == trim(v@),
{
    let n = v.len();
    let mut a: usize = 0;
    while a < n && is_whitespace(v[a])
        invariant
            n == v@.len(),
            a <= n,
            forall|i: int| 0 <= i < a ==> is_unicode_whitespace(#[trigger] v@[i]),
        decreases n - a,
    {
        a = a + 1;
    }
    proof {
        lemma_trim_start_at(v@, a as int);
    }
    let ghost t = v@.subrange(a as int, n as int);
    let mut b: usize = n;
    while b > a && is_whitespace(v[b - 1])
        invariant
            n == v@.len(),
            a <= b <= n,
            forall|i: int| b <= i < n ==> is_unicode_whitespace(#[trigger] v@[i]),
        decreases b - a,
    {
        b = b - 1;
    }
    proof {
        assert forall|i: int| b - a <= i < t.len() implies is_unicode_whitespace(#[trigger] t[i]) by {
            assert(t[i] == v@[a + i]);
        }
        if b > a {
            assert(t[b - a - 1] == v@[b - 1]);
        }
        lemma_trim_end_at(t, b - a);
    }
    let mut r: Vec<char> = Vec::new();
    let mut i: usize = a;
    while i < b
        invariant
            a <= i <= b,
            b <= n,
            n == v@.len(),
            r@ == v@.subrange(a as int, i as int),
        decreases b - i,
    {
        r.push(v[i]);
        proof {
            assert(r@ =~= v@.subrange(a as int, i + 1));
        }
        i = i + 1;
    }
    proof {
        assert(r@ =~= t.subrange(0, b - a));
    }
    r
}

/// The value of a hexadecimal digit (either case).
pub open spec fn hex_digit_value(c: char) -> Option<nat> {
    if '0' <= c && c <= '9' {
        Some((c as u32 - '0' as u32) as nat)
    } else if 'a' <= c && c <= 'f' {
        Some((c as u32 - 'a' as u32 + 10) as nat)
    } else if 'A' <= c && c <= 'F' {
        Some((c as u32 - 'A' as u32 + 10) as nat)
    } else {
        None
    }
}

/// The value of a string of hexadecimal digits (`None` if any character is not one).
pub open spec fn hex_digits_value(s: Seq<char>) -> Option<nat>
    decreases s.len(),
{
    if s.len() == 0 {
        Some(0)
    } else {
        match (hex_digits_value(s.drop_last()), hex_digit_value(s.last())) {
            (Some(v), Some(d)) => Some(v * 16 + d),
            _ => None,
        }
    }
}

/// `u64::from_str_radix(s, 16)`: an optional `+` and at least one hex digit, with a
/// value that fits in 64 bits.
pub open spec fn parse_hex_u64(s: Seq<char>) -> Option<u64> {
    let body = if s.len() > 0 && s[0] == '+' { s.drop_first() } else { s };
    if body.len() == 0 {
        None
    } else {
        match hex_digits_value(body) {
            Some(v) => if v <= u64::MAX { Some(v as u64) } else { None },
            None => None,
        }
    }
}

fn hex_digit(c: char) -> (r: Option<u64>)
    ensures
        r matches Some(d) ==> hex_digit_value(c) == Some(d as nat) && d < 16,
        r is None ==> hex_digit_value(c) is None,
{
    if '0' <= c && c <= '9' {
        Some((c as u32 - '0' as u32) as u64)
    } else if 'a' <= c && c <= 'f' {
        Some((c as u32 - 'a' as u32 + 10) as u64)
    } else if 'A' <= c && c <= 'F' {
        Some((c as u32 - 'A' as u32 + 10) as u64)
    } else {
        None
    }
}

/// Appending digits to a hexadecimal numeral never lowers its value.
pub proof fn lemma_hex_value_grows(s: Seq<char>, v: nat)
    requires
        hex_digits_value(s) == Some(v),
    ensures
        forall|t: Seq<char>| #![trigger hex_digits_value(s + t)]
            hex_digits_value(s + t) matches Some(w) ==> w >= v,
{
    assert forall|t: Seq<char>| #![trigger hex_digits_value(s + t)]
        (hex_digits_value(s + t) matches Some(w) ==> w >= v) by {
        lemma_hex_value_extend(s, t, v);
    }
}

proof fn lemma_hex_value_extend(s: Seq<char>, t: Seq<char>, v: nat)
    requires
        hex_digits_value(s) == Some(v),
    ensures
        hex_digits_value(s + t) matches Some(w) ==> w >= v,
    decreases t.len(),
{
    if t.len() == 0 {
        assert(s + t =~= s);
    } else {
        assert((s + t).drop_last() =~= s + t.drop_last());
        assert((s + t).last() == t.last());
        lemma_hex_value_extend(s, t.drop_last(), v);
    }
}

/// Parses `s` as `u64::from_str_radix(s, 16)` does.
pub fn parse_hex(s: &Vec<char>) -> (r: Option<u64>)
    ensures
        r == parse_hex_u64(s@),
{
    let n = s.len();
    let start: usize = if n > 0 && s[0] == '+' { 1 } else { 0 };
    let ghost body = if s@.len() > 0 && s@[0] == '+' { s@.drop_first() } else { s@ };
    proof {
        assert(body =~= s@.subrange(start as int, n as int));
    }
    if start == n {
        return None;
    }
    let mut acc: u64 = 0;
    let mut i: usize = start;
    proof {
        assert(body.take(0) =~= Seq::<char>::empty());
    }
    while i < n
        invariant
            start <= i <= n,
            start < n,
            n == s@.len(),
            body == s@.subrange(start as int, n as int),
            body == (if s@.len() > 0 && s@[0] == '+' { s@.drop_first() } else { s@ }),
            hex_digits_value(body.take(i - start)) == Some(acc as nat),
        decreases n - i,
    {
        let c = s[i];
        proof {
            assert(body.take(i - start + 1).drop_last() =~= body.take(i - start));
            assert(body.take(i - start + 1).last() == c);
        }
        match hex_digit(c) {
            None => {
                proof {
                    assert(hex_digits_value(body.take(i - start + 1)) is None);
                    lemma_hex_none_extends(body, i - start + 1);
                }
                return None;
            },
            Some(d) => {
                if acc > (u64::MAX - d) / 16 {
                    proof {
                        let w = acc as nat * 16 + d as nat;
                        let x = (u64::MAX - d) as int;
                        vstd::arithmetic::div_mod::lemma_fundamental_div_mod(x, 16);
                        let q = x / 16;
                        let rr = x % 16;
                        assert(w > u64::MAX) by (nonlinear_arith)
                            requires acc > q, x == 16 * q + rr, rr < 16, x == u64::MAX - d, w == acc * 16 + d;
                        assert(hex_digits_value(body.take(i - start + 1)) == Some(w));
                        lemma_hex_value_grows(body.take(i - start + 1), w);
                        assert(body.take(i - start + 1) + body.subrange(i - start + 1, body.len() as int) =~= body);
                    }
                    return None;
                }
                proof {
                    assert(acc * 16 + d <= u64::MAX) by (nonlinear_arith)
                        requires acc <= (u64::MAX - d) / 16, d < 16;
                }
                acc = acc * 16 + d;
            },
        }
        i = i + 1;
    }
    proof {
        assert(body.take(n - start) =~= body);
    }
    Some(acc)
}

proof fn lemma_hex_none_extends(body: Seq<char>, j: int)
    requires
        0 <= j <= body.len(),
        hex_digits_value(body.take(j)) is None,
    ensures
        hex_digits_value(body) is None,
    decreases body.len() - j,
{
    if j < body.len() {
        assert(body.take(j + 1).drop_last() =~= body.take(j));
        lemma_hex_none_extends(body, j + 1);
    } else {
        assert(body.take(j) =~= body);
    }
}

} // verus!

verus! {

/// Lower-case hexadecimal digit of `d` (`d < 16`).
pub open spec fn hex_char(d: u64) -> char {
    if d < 10 {
        ((d + 0x30) as u8) as char
    } else {
        ((d - 10 + 0x61) as u8) as char
    }
}

/// `x` as `n` lower-case hexadecimal digits, most significant first: digit `i` is the
/// nibble at bit `4 * (n - 1 - i)` (`format!("{:0n$x}")` for values below `16^n`).
pub open spec fn hex_text(x: u64, n: nat) -> Seq<char> {
    Seq::new(n, |i: int| hex_char((x >> ((4 * (n - 1 - i)) as u64)) & 15u64))
}

/// A written digit reads back as its value.
pub proof fn lemma_hex_char_value(d: u64)
    requires
        d < 16,
    ensures
        hex_digit_value(hex_char(d)) == Some(d as nat),
        !is_unicode_whitespace(hex_char(d)),
        hex_char(d) != '+',
{
    if d < 10 {
        assert((((d + 0x30) as u8) as char) as u32 == d + 0x30);
    } else {
        assert((((d - 10 + 0x61) as u8) as char) as u32 == d - 10 + 0x61);
    }
}

/// `n` written digits of `x` read back as the low `4 * n` bits of `x`.
pub proof fn lemma_hex_text_value(x: u64, n: nat)
    requires
        n <= 16,
    ensures
        hex_digits_value(hex_text(x, n)) == Some((x as nat) % (vstd::arithmetic::power::pow(16, n) as nat)),
    decreases n,
{
    let p = vstd::arithmetic::power::pow(16, n);
    if n == 0 {
        assert(hex_text(x, 0) =~= Seq::<char>::empty());
        assert(p == 1) by {
            reveal(vstd::arithmetic::power::pow);
        }
    } else {
        let m = (n - 1) as nat;
        let y: u64 = x >> 4u64;
        lemma_hex_text_value(y, m);
        let t = hex_text(x, n);
        assert(t.drop_last() =~= hex_text(y, m)) by {
            assert forall|i: int| 0 <= i < m implies #[trigger] t.drop_last()[i] == hex_text(y, m)[i] by {
                let a: u64 = (4 * (m - 1 - i)) as u64;
                assert(a <= 56);
                assert((4 * (n - 1 - i)) as u64 == a + 4);
                assert((x >> 4u64) >> a == x >> ((a + 4) as u64)) by (bit_vector)
                    requires a <= 56u64;
            }
        }
        let d: u64 = x & 15u64;
        assert(t.last() == hex_char(d)) by {
            assert((4 * (n - 1 - (n - 1))) as u64 == 0u64);
            assert(x >> 0u64 == x) by (bit_vector);
        }
        assert(d < 16 && d == x % 16 && y == x / 16) by (bit_vector)
            requires d == x & 15u64, y == x >> 4u64;
        lemma_hex_char_value(d);
        let q = vstd::arithmetic::power::pow(16, m);
        assert(p == 16 * q) by {
            reveal(vstd::arithmetic::power::pow);
        }
        vstd::arithmetic::power::lemma_pow_positive(16, m);
        vstd::arithmetic::div_mod::lemma_breakdown(x as int, 16, q);
        assert((x as nat) % (p as nat) == ((y as nat) % (q as nat)) * 16 + d);
    }
}

/// Writing a 64-bit value in 16 hex digits and reading it back gives the value.
pub proof fn lemma_hex_text_round_trip(x: u64)
    ensures
        parse_hex_u64(hex_text(x, 16)) == Some(x),
        trim(hex_text(x, 16)) == hex_text(x, 16),
{
    let t = hex_text(x, 16);
    lemma_hex_text_value(x, 16);
    assert(vstd::arithmetic::power::pow(16, 16) == 0x1_0000_0000_0000_0000int) by {
        reveal_with_fuel(vstd::arithmetic::power::pow, 17);
    }
    assert forall|i: int| 0 <= i < 16 implies !is_unicode_whitespace(#[trigger] t[i]) && t[i] != '+' by {
        let a: u64 = (4 * (16 - 1 - i)) as u64;
        let d: u64 = (x >> a) & 15u64;
        assert(d < 16) by (bit_vector)
            requires d == (x >> a) & 15u64;
        lemma_hex_char_value(d);
    }
    assert(t[0] != '+');
    assert((x as nat) % (0x1_0000_0000_0000_0000int as nat) == x as nat);
    assert(hex_digits_value(t) == Some(x as nat));
    lemma_trim_start_at(t, 0);
    assert(t.subrange(0, 16) =~= t);
    lemma_trim_end_at(t, 16);
}

/// `x` written as `n` lower-case hexadecimal digits (the low `4 * n` bits).
pub fn hex_digits(x: u64, n: usize) -> (s: String)
    requires
        n <= 16,
    ensures
        s@ == hex_text(x, n as nat),
{
    let mut out: Vec<char> = Vec::new();
    let mut i: usize = 0;
    while i < n
        invariant
            i <= n,
            n <= 16,
            out@ == hex_text(x, n as nat).take(i as int),
        decreases n - i,
    {
        let shift: u64 = 4 * ((n - 1 - i) as u64);
        let d = (x >> shift) & 15u64;
        proof {
            assert(d < 16) by (bit_vector)
                requires d == (x >> shift) & 15u64;
        }
        let c = if d < 10 {
            ((d + 0x30) as u8) as char
        } else {
            ((d - 10 + 0x61) as u8) as char
        };
        out.push(c);
        proof {
            assert(out@ =~= hex_text(x, n as nat).take(i + 1));
        }
        i = i + 1;
    }
    proof {
        assert(out@ =~= hex_text(x, n as nat));
    }
    string_from_chars(&out)
}

/// The decimal digit for `d < 10`.
pub open spec fn decimal_digit(d: nat) -> char {
    ((d + 48) as u8) as char
}

/// `n` written in decimal, without leading zeros (what `{}` prints for an integer).
pub open spec fn decimal(n: nat) -> Seq<char>
    decreases n,
{
    if n < 10 {
        seq![decimal_digit(n)]
    } else {
        decimal(n / 10).push(decimal_digit(n % 10))
    }
}

/// Appends the decimal digits of `n` to `out`.
fn push_decimal(out: &mut Vec<char>, n: usize)
    ensures
        final(out)@ == old(out)@ + decimal(n as nat),
    decreases n,
{
    if n >= 10 {
        push_decimal(out, n / 10);
    }
    let d = (n % 10) as u8;
    out.push((d + 48) as char);
    proof {
        if n >= 10 {
            assert(old(out)@ + decimal(n as nat) =~= (old(out)@ + decimal((n / 10) as nat)).push(decimal_digit((n % 10) as nat)));
        } else {
            assert(old(out)@ + decimal(n as nat) =~= old(out)@.push(decimal_digit(n as nat)));
        }
    }
}

/// `n` written in decimal.
pub fn decimal_text(n: usize) -> (s: String)
    ensures
        s@ == decimal(n as nat),
{
    let mut v: Vec<char> = Vec::new();
    push_decimal(&mut v, n);
    proof {
        assert(v@ =~= decimal(n as nat));
    }
    string_from_chars(&v)
}

} // verus!
