//! Text and byte-string building blocks shared by the parsers and renderers.
//!
//! Strings are modelled as `Seq<char>`, byte strings as `Seq<u8>`. Each
//! executable function here is stated against a spec function of the same
//! purpose, so that callers can speak of whole parses in terms of those.

use vstd::prelude::*;
use vstd::slice::slice_subrange;

verus! {

/// `String::push`: appends one character to the end of the string.
pub assume_specification[ String::push ](s: &mut String, c: char)
    ensures
        final(s)@ == old(s)@.push(c),
;

// ---------------------------------------------------------------------------
// Conversions
// ---------------------------------------------------------------------------

/// The characters of `s`, in order.
pub fn chars_of(s: &str) -> (r: Vec<char>)
    ensures
        r@ == s@,
{
    let n: usize = s.unicode_len();
    let mut out: Vec<char> = Vec::new();
    let mut it = s.chars();
    let mut i: usize = 0;
    while i < n
        invariant
            i <= n,
            n == s@.len(),
            out@ == s@.take(i as int),
            vstd::std_specs::iter::IteratorSpec::remaining(&it) == s@.skip(i as int),
            vstd::std_specs::iter::IteratorSpec::obeys_prophetic_iter_laws(&it),
        decreases n - i,
    {
        broadcast use vstd::string::group_string_axioms;
        match it.next() {
            Some(c) => {
                out.push(c);
            },
            None => {
                assert(false);
            },
        }
        i = i + 1;
        assert(s@.take(i as int) =~= s@.take(i - 1).push(s@[i - 1]));
        assert(s@.skip(i - 1).drop_first() =~= s@.skip(i as int));
    }
    assert(s@.take(n as int) =~= s@);
    out
}

/// The string made of `chars`.
pub fn string_of(chars: &[char]) -> (r: String)
    ensures
        r@ == chars@,
{
    let mut out: String = String::new();
    let mut i: usize = 0;
    while i < chars.len()
        invariant
            i <= chars.len(),
            out@ == chars@.take(i as int),
        decreases chars.len() - i,
    {
        out.push(chars[i]);
        i = i + 1;
        assert(chars@.take(i as int) =~= chars@.take(i - 1).push(chars@[i - 1]));
    }
    assert(chars@.take(chars@.len() as int) =~= chars@);
    out
}

/// A copy of `bytes`.
pub fn bytes_of(bytes: &[u8]) -> (r: Vec<u8>)
    ensures
        r@ == bytes@,
{
    let mut out: Vec<u8> = Vec::new();
    push_bytes(&mut out, bytes);
    assert(Seq::<u8>::empty() + bytes@ =~= bytes@);
    out
}

/// Appends `bytes` to `out`.
pub fn push_bytes(out: &mut Vec<u8>, bytes: &[u8])
    ensures
        final(out)@ == old(out)@ + bytes@,
{
    let mut i: usize = 0;
    while i < bytes.len()
        invariant
            i <= bytes.len(),
            out@ == old(out)@ + bytes@.take(i as int),
        decreases bytes.len() - i,
    {
        out.push(bytes[i]);
        i = i + 1;
        assert(bytes@.take(i as int) =~= bytes@.take(i - 1).push(bytes@[i - 1]));
        assert(out@ =~= old(out)@ + bytes@.take(i as int));
    }
    assert(bytes@.take(bytes@.len() as int) =~= bytes@);
}

/// Whether two strings hold the same characters.
pub fn same(a: &str, b: &str) -> (r: bool)
    ensures
        r == (a@ == b@),
{
    let x: Vec<char> = chars_of(a);
    let y: Vec<char> = chars_of(b);
    same_chars(&x, &y)
}

/// Whether two character slices are equal.
pub fn same_chars(a: &[char], b: &[char]) -> (r: bool)
    ensures
        r == (a@ == b@),
{
    if a.len() != b.len() {
        return false;
    }
    let mut i: usize = 0;
    while i < a.len()
        invariant
            i <= a.len(),
            a.len() == b.len(),
            a@.take(i as int) == b@.take(i as int),
        decreases a.len() - i,
    {
        if a[i] != b[i] {
            return false;
        }
        i = i + 1;
        assert(a@.take(i as int) =~= a@.take(i - 1).push(a@[i - 1]));
        assert(b@.take(i as int) =~= b@.take(i - 1).push(b@[i - 1]));
    }
    assert(a@.take(a@.len() as int) =~= a@);
    assert(b@.take(b@.len() as int) =~= b@);
    true
}

// ---------------------------------------------------------------------------
// ASCII case
// ---------------------------------------------------------------------------

/// An upper-case ASCII letter's lower-case form; any other character itself.
pub open spec fn lower_char(c: char) -> char {
    if 'A' <= c && c <= 'Z' {
        (c as u32 + 32) as char
    } else {
        c
    }
}

/// `s` with its ASCII letters in lower case.
pub open spec fn lower(s: Seq<char>) -> Seq<char> {
    Seq::new(s.len(), |i: int| lower_char(s[i]))
}

/// An upper-case ASCII letter's lower-case form; any other byte itself.
pub open spec fn lower_byte(b: u8) -> u8 {
    if 65 <= b && b <= 90 {
        (b + 32) as u8
    } else {
        b
    }
}

/// Whether two byte strings are equal but for the case of ASCII letters.
pub open spec fn same_but_case(a: Seq<u8>, b: Seq<u8>) -> bool {
    &&& a.len() == b.len()
    &&& forall|i: int| 0 <= i < a.len() ==> lower_byte(#[trigger] a[i]) == lower_byte(b[i])
}

/// The lower-case form of one ASCII character.
pub fn to_lower_char(c: char) -> (r: char)
    ensures
        r == lower_char(c),
{
    if 'A' <= c && c <= 'Z' {
        ((c as u8) + 32) as char
    } else {
        c
    }
}

/// `s` with its ASCII letters in lower case.
pub fn to_lower(s: &str) -> (r: String)
    ensures
        r@ == lower(s@),
{
    let chars: Vec<char> = chars_of(s);
    let mut out: String = String::new();
    let mut i: usize = 0;
    while i < chars.len()
        invariant
            i <= chars.len(),
            chars@ == s@,
            out@ == lower(s@).take(i as int),
        decreases chars.len() - i,
    {
        out.push(to_lower_char(chars[i]));
        i = i + 1;
        assert(lower(s@).take(i as int) =~= lower(s@).take(i - 1).push(lower(s@)[i - 1]));
    }
    assert(lower(s@).take(s@.len() as int) =~= lower(s@));
    out
}

/// Whether `a` and `b` are equal but for the case of ASCII letters.
pub fn eq_ignore_case(a: &[u8], b: &[u8]) -> (r: bool)
    ensures
        r == same_but_case(a@, b@),
{
    if a.len() != b.len() {
        return false;
    }
    let mut i: usize = 0;
    while i < a.len()
        invariant
            i <= a.len(),
            a.len() == b.len(),
            forall|j: int| 0 <= j < i ==> lower_byte(#[trigger] a@[j]) == lower_byte(b@[j]),
        decreases a.len() - i,
    {
        if to_lower_byte(a[i]) != to_lower_byte(b[i]) {
            return false;
        }
        i = i + 1;
    }
    true
}

/// The lower-case form of one ASCII byte.
pub fn to_lower_byte(b: u8) -> (r: u8)
    ensures
        r == lower_byte(b),
{
    if 65 <= b && b <= 90 {
        b + 32
    } else {
        b
    }
}

// ---------------------------------------------------------------------------
// Numerals
// ---------------------------------------------------------------------------

/// The character of one decimal digit.
pub open spec fn digit_char(d: int) -> char {
    (48 + d) as char
}

/// The decimal numeral of `n`, without leading zeros.
pub open spec fn decimal(n: nat) -> Seq<char>
    decreases n,
{
    if n < 10 {
        seq![digit_char(n as int)]
    } else {
        decimal(n / 10).push(digit_char((n % 10) as int))
    }
}

/// Appends the decimal numeral of `n` to `out`.
pub fn push_decimal(out: &mut String, n: u64)
    ensures
        final(out)@ == old(out)@ + decimal(n as nat),
    decreases n,
{
    if n >= 10 {
        push_decimal(out, n / 10);
    }
    let d: u8 = (n % 10) as u8;
    out.push((48 + d) as char);
    assert(out@ =~= old(out)@ + decimal(n as nat));
}

/// The decimal numeral of `n`.
pub fn decimal_string(n: u64) -> (r: String)
    ensures
        r@ == decimal(n as nat),
{
    let mut out: String = String::new();
    push_decimal(&mut out, n);
    assert(Seq::<char>::empty() + decimal(n as nat) =~= decimal(n as nat));
    out
}

/// The character of one lower-case hexadecimal digit.
pub open spec fn hex_char(d: int) -> char {
    if d < 10 {
        (48 + d) as char
    } else {
        (87 + d) as char
    }
}

/// A byte as two lower-case hexadecimal digits.
pub open spec fn hex_byte(b: u8) -> Seq<char> {
    seq![hex_char(b as int / 16), hex_char(b as int % 16)]
}

/// Appends the two hexadecimal digits of `b` to `out`.
pub fn push_hex_byte(out: &mut String, b: u8)
    ensures
        final(out)@ == old(out)@ + hex_byte(b),
{
    let hi: u8 = b / 16;
    let lo: u8 = b % 16;
    out.push(if hi < 10 { (48 + hi) as char } else { (87 + hi) as char });
    out.push(if lo < 10 { (48 + lo) as char } else { (87 + lo) as char });
    assert(out@ =~= old(out)@ + hex_byte(b));
}

/// What the character `c` counts as a digit of a numeral in base `radix` (at
/// most sixteen), or `None` when it is no digit of that base.
pub open spec fn digit_of(c: char, radix: int) -> Option<int> {
    let d = if '0' <= c && c <= '9' {
        c as int - 48
    } else if 'a' <= c && c <= 'f' {
        c as int - 87
    } else if 'A' <= c && c <= 'F' {
        c as int - 55
    } else {
        16
    };
    if d < radix {
        Some(d)
    } else {
        None
    }
}

/// Whether `s` is made of digits of base `radix` alone.
pub open spec fn all_digits(s: Seq<char>, radix: int) -> bool {
    forall|i: int| 0 <= i < s.len() ==> (#[trigger] digit_of(s[i], radix)) is Some
}

/// The value of a string of digits in base `radix`.
pub open spec fn digits_value(s: Seq<char>, radix: int) -> int
    decreases s.len(),
{
    if s.len() == 0 {
        0
    } else {
        digits_value(s.drop_last(), radix) * radix + digit_of(s.last(), radix).unwrap_or(0)
    }
}

/// The number that `s` writes in base `radix`: an optional `+`, then one or
/// more digits, the value no larger than `max`. `None` for anything else.
pub open spec fn numeral(s: Seq<char>, radix: int, max: int) -> Option<int> {
    let digits = if s.len() > 0 && s[0] == '+' {
        s.skip(1)
    } else {
        s
    };
    if digits.len() > 0 && all_digits(digits, radix) && digits_value(digits, radix) <= max {
        Some(digits_value(digits, radix))
    } else {
        None
    }
}

/// The digits of a decimal numeral, and their value.
proof fn lemma_decimal_digits(n: nat)
    ensures
        decimal(n).len() > 0,
        all_digits(decimal(n), 10),
        digits_value(decimal(n), 10) == n,
        decimal(n)[0] != '+',
    decreases n,
{
    let s = decimal(n);
    if n < 10 {
        assert(s.drop_last() =~= Seq::<char>::empty());
        assert(digits_value(s.drop_last(), 10) == 0);
        assert(digit_of(s[0], 10) == Some(n as int));
    } else {
        lemma_decimal_digits(n / 10);
        let front = decimal(n / 10);
        let last = digit_char((n % 10) as int);
        assert(s.drop_last() =~= front);
        assert(s.last() == last);
        assert(digit_of(last, 10) == Some((n % 10) as int));
        assert forall|i: int| 0 <= i < s.len() implies (#[trigger] digit_of(s[i], 10)) is Some by {
            if i < front.len() {
                assert(digit_of(front[i], 10) is Some);
            }
        }
        assert(s[0] == front[0]);
    }
}

/// A decimal numeral reads back as its number.
pub proof fn lemma_decimal_reads_back(n: nat, max: int)
    requires
        n <= max,
    ensures
        numeral(decimal(n), 10, max) == Some(n as int),
{
    lemma_decimal_digits(n);
}

/// The value of a digit of base `radix`.
fn to_digit(c: char, radix: u64) -> (r: Option<u64>)
    requires
        radix <= 16,
    ensures
        match r {
            Some(d) => digit_of(c, radix as int) == Some(d as int) && d < radix,
            None => digit_of(c, radix as int) is None,
        },
{
    let d: u64 = if '0' <= c && c <= '9' {
        (c as u64) - 48
    } else if 'a' <= c && c <= 'f' {
        (c as u64) - 87
    } else if 'A' <= c && c <= 'F' {
        (c as u64) - 55
    } else {
        16
    };
    if d < radix {
        Some(d)
    } else {
        None
    }
}

proof fn lemma_digits_value_nonneg(s: Seq<char>, radix: int)
    requires
        radix > 0,
    ensures
        digits_value(s, radix) >= 0,
    decreases s.len(),
{
    if s.len() > 0 {
        lemma_digits_value_nonneg(s.drop_last(), radix);
        let v = digits_value(s.drop_last(), radix);
        assert(v * radix >= 0) by (nonlinear_arith)
            requires
                v >= 0,
                radix > 0,
        ;
    }
}

/// More digits never make a smaller number.
proof fn lemma_digits_value_prefix(s: Seq<char>, radix: int, i: int)
    requires
        radix > 0,
        0 <= i <= s.len(),
    ensures
        digits_value(s.take(i), radix) <= digits_value(s, radix),
    decreases s.len(),
{
    if i == s.len() {
        assert(s.take(i) =~= s);
    } else {
        lemma_digits_value_prefix(s.drop_last(), radix, i);
        assert(s.drop_last().take(i) =~= s.take(i));
        lemma_digits_value_nonneg(s.drop_last(), radix);
        let v = digits_value(s.drop_last(), radix);
        assert(v * radix >= v) by (nonlinear_arith)
            requires
                v >= 0,
                radix > 0,
        ;
    }
}

/// Reads a numeral in base `radix`, as `FromStr` of the unsigned integers and
/// `from_str_radix` do: an optional `+`, then digits, no larger than `max`.
pub fn parse_numeral(s: &[char], radix: u64, max: u64) -> (r: Option<u64>)
    requires
        0 < radix <= 16,
    ensures
        match r {
            Some(n) => numeral(s@, radix as int, max as int) == Some(n as int),
            None => numeral(s@, radix as int, max as int) is None,
        },
{
    let from: usize = if s.len() > 0 && s[0] == '+' { 1 } else { 0 };
    let ghost digits = if s@.len() > 0 && s@[0] == '+' {
        s@.skip(1)
    } else {
        s@
    };
    assert(digits =~= s@.skip(from as int));
    if from == s.len() {
        return None;
    }
    let mut value: u64 = 0;
    let mut i: usize = from;
    while i < s.len()
        invariant
            from <= i <= s.len(),
            from < s.len(),
            0 < radix <= 16,
            value <= max,
            digits == s@.skip(from as int),
            digits.len() == s.len() - from,
            digits == (if s@.len() > 0 && s@[0] == '+' {
                s@.skip(1)
            } else {
                s@
            }),
            value == digits_value(digits.take(i - from), radix as int),
            all_digits(digits.take(i - from), radix as int),
        decreases s.len() - i,
    {
        let ghost k = i - from;
        assert(digits.take(k + 1).drop_last() =~= digits.take(k));
        assert(digits.take(k + 1).last() == s@[i as int]);
        match to_digit(s[i], radix) {
            None => {
                assert(digit_of(digits[k], radix as int) is None);
                return None;
            },
            Some(d) => {
                assert(value * radix <= 0xffff_ffff_ffff_ffff * 16) by (nonlinear_arith)
                    requires
                        value <= 0xffff_ffff_ffff_ffff,
                        radix <= 16,
                ;
                let next: u128 = (value as u128) * (radix as u128) + (d as u128);
                assert(next == digits_value(digits.take(k + 1), radix as int));
                if next > (max as u128) {
                    proof {
                        lemma_digits_value_prefix(digits, radix as int, k + 1);
                    }
                    return None;
                }
                value = next as u64;
                assert forall|j: int| 0 <= j < digits.take(k + 1).len() implies (
                #[trigger] digit_of(digits.take(k + 1)[j], radix as int)) is Some by {
                    if j < k {
                        assert(digit_of(digits.take(k)[j], radix as int) is Some);
                    }
                }
            },
        }
        i = i + 1;
    }
    assert(digits.take(s.len() - from) =~= digits);
    Some(value)
}

// ---------------------------------------------------------------------------
// Searching and splitting
// ---------------------------------------------------------------------------

/// Where the first `c` stands in `s`; the length of `s` when there is none.
pub open spec fn scan<T>(s: Seq<T>, c: T) -> int
    decreases s.len(),
{
    if s.len() == 0 || s[0] == c {
        0
    } else {
        1 + scan(s.drop_first(), c)
    }
}

/// `scan` finds the first occurrence, or the end.
pub proof fn lemma_scan<T>(s: Seq<T>, c: T)
    ensures
        0 <= scan(s, c) <= s.len(),
        forall|i: int| 0 <= i < scan(s, c) ==> s[i] != c,
        scan(s, c) < s.len() ==> s[scan(s, c)] == c,
    decreases s.len(),
{
    if s.len() > 0 && s[0] != c {
        lemma_scan(s.drop_first(), c);
        assert forall|i: int| 0 <= i < scan(s, c) implies s[i] != c by {
            if i > 0 {
                assert(s[i] == s.drop_first()[i - 1]);
            }
        }
    }
}

/// The first occurrence is at `i` when nothing before it matches.
pub proof fn lemma_scan_is<T>(s: Seq<T>, c: T, i: int)
    requires
        0 <= i <= s.len(),
        forall|j: int| 0 <= j < i ==> s[j] != c,
        i < s.len() ==> s[i] == c,
    ensures
        scan(s, c) == i,
{
    lemma_scan(s, c);
    let k = scan(s, c);
    if k < i {
        assert(s[k] != c);
    }
    if i < k {
        assert(s[i] != c);
    }
}

/// `s` cut at every `sep`; one piece more than there are separators.
pub open spec fn split<T>(s: Seq<T>, sep: T) -> Seq<Seq<T>>
    decreases s.len(),
{
    proof {
        lemma_scan(s, sep);
    }
    let i = scan(s, sep);
    if i >= s.len() || i < 0 {
        seq![s]
    } else {
        seq![s.take(i)] + split(s.skip(i + 1), sep)
    }
}

/// A sequence without the separator is one piece.
pub proof fn lemma_split_whole<T>(s: Seq<T>, sep: T)
    requires
        !s.contains(sep),
    ensures
        split(s, sep) == seq![s],
{
    lemma_scan(s, sep);
    if scan(s, sep) < s.len() {
        assert(s.contains(sep));
    }
}

/// The pieces on either side of a separator are those of the two sides.
pub proof fn lemma_split_join<T>(a: Seq<T>, sep: T, b: Seq<T>)
    ensures
        split(a + seq![sep] + b, sep) == split(a, sep) + split(b, sep),
    decreases a.len(),
{
    let s = a + seq![sep] + b;
    let i = scan(a, sep);
    lemma_scan(a, sep);
    assert forall|j: int| 0 <= j < i implies s[j] != sep by {
        assert(s[j] == a[j]);
    }
    assert(s[i] == sep);
    lemma_scan_is(s, sep, i);
    if i >= a.len() {
        assert(s.take(i) =~= a);
        assert(s.skip(i + 1) =~= b);
        assert(split(s, sep) =~= seq![a] + split(b, sep));
    } else {
        let rest = a.skip(i + 1);
        lemma_split_join(rest, sep, b);
        assert(s.take(i) =~= a.take(i));
        assert(s.skip(i + 1) =~= rest + seq![sep] + b);
        assert(split(s, sep) =~= seq![a.take(i)] + (split(rest, sep) + split(b, sep)));
        assert(split(a, sep) =~= seq![a.take(i)] + split(rest, sep));
        assert(split(s, sep) =~= split(a, sep) + split(b, sep));
    }
}

/// The pieces that are not empty.
pub open spec fn non_empty<T>(pieces: Seq<Seq<T>>) -> Seq<Seq<T>>
    decreases pieces.len(),
{
    if pieces.len() == 0 {
        Seq::empty()
    } else if pieces[0].len() == 0 {
        non_empty(pieces.drop_first())
    } else {
        seq![pieces[0]] + non_empty(pieces.drop_first())
    }
}

/// The pieces of two runs that are not empty are those of the first, then those
/// of the second.
pub proof fn lemma_non_empty_concat<T>(a: Seq<Seq<T>>, b: Seq<Seq<T>>)
    ensures
        non_empty(a + b) == non_empty(a) + non_empty(b),
    decreases a.len(),
{
    if a.len() == 0 {
        assert(a + b =~= b);
        assert(non_empty(a) + non_empty(b) =~= non_empty(b));
    } else {
        lemma_non_empty_concat(a.drop_first(), b);
        assert((a + b).drop_first() =~= a.drop_first() + b);
        assert(non_empty(a + b) =~= non_empty(a) + non_empty(b));
    }
}

/// There are at most half as many pieces that are not empty as there are
/// elements, the separators counted in.
pub proof fn lemma_non_empty_count<T>(s: Seq<T>, sep: T)
    ensures
        2 * non_empty(split(s, sep)).len() <= s.len() + 1,
    decreases s.len(),
{
    lemma_scan(s, sep);
    let i = scan(s, sep);
    if i < s.len() {
        let rest = s.skip(i + 1);
        lemma_non_empty_count(rest, sep);
        let pieces = split(s, sep);
        assert(pieces.drop_first() =~= split(rest, sep));
        assert(pieces[0] == s.take(i));
    } else {
        assert(split(s, sep).drop_first() =~= Seq::<Seq<T>>::empty());
        assert(non_empty(Seq::<Seq<T>>::empty()).len() == 0);
    }
}

/// A sequence that neither begins nor ends with an element to be trimmed stays
/// as it is.
pub proof fn lemma_trim_whole<T>(s: Seq<T>, p: spec_fn(T) -> bool)
    requires
        s.len() > 0 ==> !p(s[0]) && !p(s.last()),
    ensures
        trim(s, p) == s,
{
    lemma_leading_is(s, p, 0);
    assert(s.skip(0) =~= s);
    lemma_trailing_is(s, p, 0);
    assert(s.take(s.len() as int) =~= s);
}

/// What was trimmed neither begins nor ends with an element to be trimmed.
pub proof fn lemma_trimmed<T>(s: Seq<T>, p: spec_fn(T) -> bool)
    ensures
        trim(s, p).len() > 0 ==> !p(trim(s, p)[0]) && !p(trim(s, p).last()),
{
    lemma_leading(s, p);
    let rest = s.skip(leading(s, p));
    lemma_trailing(rest, p);
}

/// Whether `s` begins with `prefix`.
pub open spec fn starts_with<T>(s: Seq<T>, prefix: Seq<T>) -> bool {
    prefix.len() <= s.len() && s.take(prefix.len() as int) == prefix
}

/// Whether `s` ends with `suffix`.
pub open spec fn ends_with<T>(s: Seq<T>, suffix: Seq<T>) -> bool {
    suffix.len() <= s.len() && s.skip(s.len() - suffix.len()) == suffix
}

/// Where the first occurrence of `pat` at or after `from` begins.
pub open spec fn find_from<T>(s: Seq<T>, pat: Seq<T>, from: int) -> Option<int>
    decreases s.len() - from + 1,
{
    if from < 0 || from + pat.len() > s.len() {
        None
    } else if s.subrange(from, from + pat.len()) == pat {
        Some(from)
    } else {
        find_from(s, pat, from + 1)
    }
}

/// Where the first occurrence of `pat` begins.
pub open spec fn find<T>(s: Seq<T>, pat: Seq<T>) -> Option<int> {
    find_from(s, pat, 0)
}

/// What is found is there.
pub proof fn lemma_found<T>(s: Seq<T>, pat: Seq<T>, from: int)
    ensures
        find_from(s, pat, from) matches Some(at) ==> {
            &&& 0 <= from <= at
            &&& at + pat.len() <= s.len()
            &&& s.subrange(at, at + pat.len()) == pat
        },
    decreases s.len() - from + 1,
{
    if 0 <= from && from + pat.len() <= s.len() && s.subrange(from, from + pat.len()) != pat {
        lemma_found(s, pat, from + 1);
    }
}

/// What is there is found, there or before.
pub proof fn lemma_found_by<T>(s: Seq<T>, pat: Seq<T>, from: int, at: int)
    requires
        0 <= from <= at,
        at + pat.len() <= s.len(),
        s.subrange(at, at + pat.len()) == pat,
    ensures
        find_from(s, pat, from) matches Some(first) && first <= at,
    decreases at - from,
{
    if s.subrange(from, from + pat.len()) != pat {
        lemma_found_by(s, pat, from + 1, at);
    }
}

/// The index of the first `c` at or after `from`, or the length.
pub fn scan_chars(s: &[char], c: char, from: usize) -> (r: usize)
    requires
        from <= s.len(),
    ensures
        from <= r <= s.len(),
        r == from + scan(s@.skip(from as int), c),
{
    let mut i: usize = from;
    while i < s.len() && s[i] != c
        invariant
            from <= i <= s.len(),
            forall|j: int| from <= j < i ==> s@[j] != c,
        decreases s.len() - i,
    {
        i = i + 1;
    }
    proof {
        lemma_scan_is(s@.skip(from as int), c, i - from);
    }
    i
}

/// The index of the first `c` at or after `from`, or the length.
pub fn scan_bytes(s: &[u8], c: u8, from: usize) -> (r: usize)
    requires
        from <= s.len(),
    ensures
        from <= r <= s.len(),
        r == from + scan(s@.skip(from as int), c),
{
    let mut i: usize = from;
    while i < s.len() && s[i] != c
        invariant
            from <= i <= s.len(),
            forall|j: int| from <= j < i ==> s@[j] != c,
        decreases s.len() - i,
    {
        i = i + 1;
    }
    proof {
        lemma_scan_is(s@.skip(from as int), c, i - from);
    }
    i
}

/// The pieces of `s` between the bytes `sep`.
pub fn split_bytes<'a>(s: &'a [u8], sep: u8) -> (r: Vec<&'a [u8]>)
    ensures
        r@.len() == split(s@, sep).len(),
        forall|i: int| 0 <= i < r@.len() ==> (#[trigger] r@[i])@ == split(s@, sep)[i],
{
    let mut out: Vec<&'a [u8]> = Vec::new();
    let mut from: usize = 0;
    let ghost all = split(s@, sep);
    assert(s@.skip(0) =~= s@);
    loop
        invariant
            from <= s.len(),
            all == split(s@, sep),
            all.len() == out@.len() + split(s@.skip(from as int), sep).len(),
            forall|i: int| 0 <= i < out@.len() ==> (#[trigger] out@[i])@ == all[i],
            forall|i: int|
                0 <= i < split(s@.skip(from as int), sep).len() ==> all[out@.len() + i] == (
                #[trigger] split(s@.skip(from as int), sep)[i]),
        decreases s.len() - from,
    {
        let at: usize = scan_bytes(s, sep, from);
        let piece: &'a [u8] = slice_subrange(s, from, at);
        let ghost rest = s@.skip(from as int);
        proof {
            lemma_scan(rest, sep);
        }
        if at == s.len() {
            assert(split(rest, sep) =~= seq![rest]);
            assert(piece@ =~= rest);
            assert(all[out@.len() as int] == split(rest, sep)[0]);
            out.push(piece);
            return out;
        }
        let ghost tail = rest.skip(scan(rest, sep) + 1);
        assert(split(rest, sep) == seq![rest.take(scan(rest, sep))] + split(tail, sep));
        assert(piece@ =~= rest.take(scan(rest, sep)));
        assert(all[out@.len() as int] == split(rest, sep)[0]);
        let ghost before = out@.len();
        out.push(piece);
        from = at + 1;
        assert(s@.skip(from as int) =~= tail);
        assert forall|i: int| 0 <= i < split(tail, sep).len() implies all[out@.len() + i] == (
        #[trigger] split(tail, sep)[i]) by {
            assert(split(rest, sep)[i + 1] == split(tail, sep)[i]);
            assert(all[before + (i + 1)] == split(rest, sep)[i + 1]);
        }
    }
}

/// The pieces of `s` between the characters `sep`.
pub fn split_chars(s: &[char], sep: char) -> (r: Vec<Vec<char>>)
    ensures
        r@.len() == split(s@, sep).len(),
        forall|i: int| 0 <= i < r@.len() ==> (#[trigger] r@[i])@ == split(s@, sep)[i],
{
    let mut out: Vec<Vec<char>> = Vec::new();
    let mut from: usize = 0;
    let ghost all = split(s@, sep);
    assert(s@.skip(0) =~= s@);
    loop
        invariant
            from <= s.len(),
            all == split(s@, sep),
            all.len() == out@.len() + split(s@.skip(from as int), sep).len(),
            forall|i: int| 0 <= i < out@.len() ==> (#[trigger] out@[i])@ == all[i],
            forall|i: int|
                0 <= i < split(s@.skip(from as int), sep).len() ==> all[out@.len() + i] == (
                #[trigger] split(s@.skip(from as int), sep)[i]),
        decreases s.len() - from,
    {
        let at: usize = scan_chars(s, sep, from);
        let piece: Vec<char> = chars_in(s, from, at);
        let ghost rest = s@.skip(from as int);
        proof {
            lemma_scan(rest, sep);
        }
        if at == s.len() {
            assert(split(rest, sep) =~= seq![rest]);
            assert(piece@ =~= rest);
            assert(all[out@.len() as int] == split(rest, sep)[0]);
            out.push(piece);
            return out;
        }
        let ghost tail = rest.skip(scan(rest, sep) + 1);
        assert(split(rest, sep) == seq![rest.take(scan(rest, sep))] + split(tail, sep));
        assert(piece@ =~= rest.take(scan(rest, sep)));
        assert(all[out@.len() as int] == split(rest, sep)[0]);
        let ghost before = out@.len();
        out.push(piece);
        from = at + 1;
        assert(s@.skip(from as int) =~= tail);
        assert forall|i: int| 0 <= i < split(tail, sep).len() implies all[out@.len() + i] == (
        #[trigger] split(tail, sep)[i]) by {
            assert(split(rest, sep)[i + 1] == split(tail, sep)[i]);
            assert(all[before + (i + 1)] == split(rest, sep)[i + 1]);
        }
    }
}

/// The characters of `s` from `from` up to `to`.
pub fn chars_in(s: &[char], from: usize, to: usize) -> (r: Vec<char>)
    requires
        from <= to <= s.len(),
    ensures
        r@ == s@.subrange(from as int, to as int),
{
    let mut out: Vec<char> = Vec::new();
    let mut i: usize = from;
    while i < to
        invariant
            from <= i <= to <= s.len(),
            out@ == s@.subrange(from as int, i as int),
        decreases to - i,
    {
        out.push(s[i]);
        i = i + 1;
        assert(s@.subrange(from as int, i as int) =~= s@.subrange(from as int, i - 1).push(
            s@[i - 1],
        ));
    }
    out
}

/// Whether the bytes of `s` from `at` on begin with `pat`.
pub fn bytes_match_at(s: &[u8], at: usize, pat: &[u8]) -> (r: bool)
    requires
        at <= s.len(),
    ensures
        r == starts_with(s@.skip(at as int), pat@),
{
    if s.len() - at < pat.len() {
        return false;
    }
    let ghost rest = s@.skip(at as int);
    let mut i: usize = 0;
    while i < pat.len()
        invariant
            at <= s.len(),
            i <= pat.len() <= s.len() - at,
            rest == s@.skip(at as int),
            forall|j: int| 0 <= j < i ==> rest[j] == pat@[j],
        decreases pat.len() - i,
    {
        if s[at + i] != pat[i] {
            assert(rest.take(pat@.len() as int)[i as int] != pat@[i as int]);
            return false;
        }
        i = i + 1;
    }
    assert(rest.take(pat@.len() as int) =~= pat@);
    true
}

/// Whether the characters of `s` from `at` on begin with `pat`.
pub fn chars_match_at(s: &[char], at: usize, pat: &[char]) -> (r: bool)
    requires
        at <= s.len(),
    ensures
        r == starts_with(s@.skip(at as int), pat@),
{
    if s.len() - at < pat.len() {
        return false;
    }
    let ghost rest = s@.skip(at as int);
    let mut i: usize = 0;
    while i < pat.len()
        invariant
            at <= s.len(),
            i <= pat.len() <= s.len() - at,
            rest == s@.skip(at as int),
            forall|j: int| 0 <= j < i ==> rest[j] == pat@[j],
        decreases pat.len() - i,
    {
        if s[at + i] != pat[i] {
            assert(rest.take(pat@.len() as int)[i as int] != pat@[i as int]);
            return false;
        }
        i = i + 1;
    }
    assert(rest.take(pat@.len() as int) =~= pat@);
    true
}

/// Whether the characters of `s` end with `suffix`.
pub fn chars_end_with(s: &[char], suffix: &[char]) -> (r: bool)
    ensures
        r == ends_with(s@, suffix@),
{
    if s.len() < suffix.len() {
        return false;
    }
    let at: usize = s.len() - suffix.len();
    let ghost tail = s@.skip(at as int);
    assert(tail.take(suffix@.len() as int) =~= tail);
    chars_match_at(s, at, suffix)
}

/// Where the first occurrence of `pat` in `s` begins.
pub fn find_bytes(s: &[u8], pat: &[u8]) -> (r: Option<usize>)
    ensures
        match r {
            Some(i) => find(s@, pat@) == Some(i as int) && i + pat@.len() <= s@.len(),
            None => find(s@, pat@) is None,
        },
{
    let mut i: usize = 0;
    loop
        invariant
            i <= s.len(),
            find(s@, pat@) == find_from(s@, pat@, i as int),
        decreases s.len() - i,
    {
        if s.len() - i < pat.len() {
            return None;
        }
        assert(s@.subrange(i as int, i + pat@.len()) =~= s@.skip(i as int).take(pat@.len() as int));
        if bytes_match_at(s, i, pat) {
            return Some(i);
        }
        if i == s.len() {
            assert(find_from(s@, pat@, i + 1) is None);
            return None;
        }
        i = i + 1;
    }
}

/// Where the first occurrence of `pat` in `s` begins.
pub fn find_chars(s: &[char], pat: &[char]) -> (r: Option<usize>)
    ensures
        match r {
            Some(i) => find(s@, pat@) == Some(i as int) && i + pat@.len() <= s@.len(),
            None => find(s@, pat@) is None,
        },
{
    let mut i: usize = 0;
    loop
        invariant
            i <= s.len(),
            find(s@, pat@) == find_from(s@, pat@, i as int),
        decreases s.len() - i,
    {
        if s.len() - i < pat.len() {
            return None;
        }
        assert(s@.subrange(i as int, i + pat@.len()) =~= s@.skip(i as int).take(pat@.len() as int));
        if chars_match_at(s, i, pat) {
            return Some(i);
        }
        if i == s.len() {
            assert(find_from(s@, pat@, i + 1) is None);
            return None;
        }
        i = i + 1;
    }
}

/// Where the first occurrence of `pat` in `s` at or after `from` begins.
pub fn find_chars_from(s: &[char], pat: &[char], from: usize) -> (r: Option<usize>)
    requires
        from <= s.len(),
    ensures
        match r {
            Some(i) => from <= i && find(s@.skip(from as int), pat@) == Some(i - from) && i
                + pat@.len() <= s@.len(),
            None => find(s@.skip(from as int), pat@) is None,
        },
{
    let ghost rest = s@.skip(from as int);
    let mut i: usize = from;
    loop
        invariant
            from <= i <= s.len(),
            rest == s@.skip(from as int),
            find(rest, pat@) == find_from(rest, pat@, i - from),
        decreases s.len() - i,
    {
        if s.len() - i < pat.len() {
            return None;
        }
        assert(rest.subrange(i - from, i - from + pat@.len()) =~= s@.skip(i as int).take(
            pat@.len() as int,
        ));
        if chars_match_at(s, i, pat) {
            return Some(i);
        }
        if i == s.len() {
            assert(find_from(rest, pat@, i - from + 1) is None);
            return None;
        }
        i = i + 1;
    }
}

/// An occurrence that `find` reports lies within the sequence and matches.
pub proof fn lemma_find<T>(s: Seq<T>, pat: Seq<T>, from: int)
    ensures
        match find_from(s, pat, from) {
            Some(i) => from <= i && 0 <= i && i + pat.len() <= s.len() && s.subrange(i, i + pat.len())
                == pat,
            None => true,
        },
    decreases s.len() - from + 1,
{
    if from >= 0 && from + pat.len() <= s.len() && s.subrange(from, from + pat.len()) != pat {
        lemma_find(s, pat, from + 1);
    }
}

// ---------------------------------------------------------------------------
// Trimming
// ---------------------------------------------------------------------------

/// How many elements at the front of `s` satisfy `p`.
pub open spec fn leading<T>(s: Seq<T>, p: spec_fn(T) -> bool) -> int
    decreases s.len(),
{
    if s.len() == 0 || !p(s[0]) {
        0
    } else {
        1 + leading(s.drop_first(), p)
    }
}

/// How many elements at the back of `s` satisfy `p`.
pub open spec fn trailing<T>(s: Seq<T>, p: spec_fn(T) -> bool) -> int
    decreases s.len(),
{
    if s.len() == 0 || !p(s.last()) {
        0
    } else {
        1 + trailing(s.drop_last(), p)
    }
}

/// `s` without the elements at either end that satisfy `p`.
pub open spec fn trim<T>(s: Seq<T>, p: spec_fn(T) -> bool) -> Seq<T> {
    let rest = s.skip(leading(s, p));
    rest.take(rest.len() - trailing(rest, p))
}

/// `leading` counts a prefix that satisfies `p` and ends where it stops.
pub proof fn lemma_leading<T>(s: Seq<T>, p: spec_fn(T) -> bool)
    ensures
        0 <= leading(s, p) <= s.len(),
        forall|i: int| 0 <= i < leading(s, p) ==> p(#[trigger] s[i]),
        leading(s, p) < s.len() ==> !p(s[leading(s, p)]),
    decreases s.len(),
{
    if s.len() > 0 && p(s[0]) {
        lemma_leading(s.drop_first(), p);
        assert forall|i: int| 0 <= i < leading(s, p) implies p(#[trigger] s[i]) by {
            if i > 0 {
                assert(s[i] == s.drop_first()[i - 1]);
            }
        }
    }
}

/// `trailing` counts a suffix that satisfies `p` and begins where it stops.
pub proof fn lemma_trailing<T>(s: Seq<T>, p: spec_fn(T) -> bool)
    ensures
        0 <= trailing(s, p) <= s.len(),
        forall|i: int| s.len() - trailing(s, p) <= i < s.len() ==> p(#[trigger] s[i]),
        trailing(s, p) < s.len() ==> !p(s[s.len() - trailing(s, p) - 1]),
    decreases s.len(),
{
    if s.len() > 0 && p(s.last()) {
        lemma_trailing(s.drop_last(), p);
        assert forall|i: int| s.len() - trailing(s, p) <= i < s.len() implies p(
            #[trigger] s[i],
        ) by {
            if i < s.len() - 1 {
                assert(s[i] == s.drop_last()[i]);
            }
        }
    }
}

pub proof fn lemma_leading_is<T>(s: Seq<T>, p: spec_fn(T) -> bool, i: int)
    requires
        0 <= i <= s.len(),
        forall|j: int| 0 <= j < i ==> p(#[trigger] s[j]),
        i < s.len() ==> !p(s[i]),
    ensures
        leading(s, p) == i,
{
    lemma_leading(s, p);
    let k = leading(s, p);
    if k < i {
        assert(p(s[k]));
    }
    if i < k {
        assert(p(s[i]));
    }
}

pub proof fn lemma_trailing_is<T>(s: Seq<T>, p: spec_fn(T) -> bool, i: int)
    requires
        0 <= i <= s.len(),
        forall|j: int| s.len() - i <= j < s.len() ==> p(#[trigger] s[j]),
        i < s.len() ==> !p(s[s.len() - i - 1]),
    ensures
        trailing(s, p) == i,
{
    lemma_trailing(s, p);
    let k = trailing(s, p);
    if k < i {
        assert(p(s[s.len() - k - 1]));
    }
    if i < k {
        assert(p(s[s.len() - i - 1]));
    }
}

/// The ASCII whitespace bytes: space, tab, line feed, form feed, carriage
/// return.
pub open spec fn ascii_space(b: u8) -> bool {
    b == 32 || b == 9 || b == 10 || b == 12 || b == 13
}

/// `s` without ASCII whitespace at either end.
pub open spec fn trim_ascii(s: Seq<u8>) -> Seq<u8> {
    trim(s, |b: u8| ascii_space(b))
}

/// The characters with the Unicode property White_Space.
pub open spec fn white_space(c: char) -> bool {
    let u = c as u32;
    (9 <= u && u <= 13) || u == 32 || u == 0x85 || u == 0xa0 || u == 0x1680 || (0x2000 <= u && u
        <= 0x200a) || u == 0x2028 || u == 0x2029 || u == 0x202f || u == 0x205f || u == 0x3000
}

/// `s` without white space at either end.
pub open spec fn trim_white(s: Seq<char>) -> Seq<char> {
    trim(s, |c: char| white_space(c))
}

/// The test for one character.
pub open spec fn is_char(c: char) -> spec_fn(char) -> bool {
    |x: char| x == c
}

/// `s` without the character `c` at either end.
pub open spec fn trim_char(s: Seq<char>, c: char) -> Seq<char> {
    trim(s, is_char(c))
}

/// Whether `c` has the Unicode property White_Space.
pub fn is_white(c: char) -> (r: bool)
    ensures
        r == white_space(c),
{
    let u: u32 = c as u32;
    (9 <= u && u <= 13) || u == 32 || u == 0x85 || u == 0xa0 || u == 0x1680 || (0x2000 <= u && u
        <= 0x200a) || u == 0x2028 || u == 0x2029 || u == 0x202f || u == 0x205f || u == 0x3000
}

/// `s` without ASCII whitespace at either end.
pub fn trim_bytes<'a>(s: &'a [u8]) -> (r: &'a [u8])
    ensures
        r@ == trim_ascii(s@),
{
    let ghost p = |b: u8| ascii_space(b);
    let mut i: usize = 0;
    while i < s.len() && (s[i] == 32 || s[i] == 9 || s[i] == 10 || s[i] == 12 || s[i] == 13)
        invariant
            i <= s.len(),
            p == (|b: u8| ascii_space(b)),
            forall|j: int| 0 <= j < i ==> p(#[trigger] s@[j]),
        decreases s.len() - i,
    {
        i = i + 1;
    }
    proof {
        lemma_leading_is(s@, p, i as int);
    }
    let ghost rest = s@.skip(i as int);
    let mut end: usize = s.len();
    while i < end && (s[end - 1] == 32 || s[end - 1] == 9 || s[end - 1] == 10 || s[end - 1] == 12
        || s[end - 1] == 13)
        invariant
            i <= end <= s.len(),
            p == (|b: u8| ascii_space(b)),
            rest == s@.skip(i as int),
            forall|j: int| end - i <= j < rest.len() ==> p(#[trigger] rest[j]),
        decreases end,
    {
        end = end - 1;
        assert(rest[end - i] == s@[end as int]);
    }
    proof {
        if i < end {
            assert(rest[end - i - 1] == s@[end - 1]);
        }
        lemma_trailing_is(rest, p, s.len() - end);
    }
    assert(s@.subrange(i as int, end as int) =~= rest.take(rest.len() - trailing(rest, p)));
    slice_subrange(s, i, end)
}

/// The bounds of `s` without white space at either end.
pub fn trim_white_bounds(s: &[char]) -> (r: (usize, usize))
    ensures
        r.0 <= r.1 <= s@.len(),
        s@.subrange(r.0 as int, r.1 as int) == trim_white(s@),
{
    let ghost p = |c: char| white_space(c);
    let mut i: usize = 0;
    while i < s.len() && is_white(s[i])
        invariant
            i <= s.len(),
            p == (|c: char| white_space(c)),
            forall|j: int| 0 <= j < i ==> p(#[trigger] s@[j]),
        decreases s.len() - i,
    {
        i = i + 1;
    }
    proof {
        lemma_leading_is(s@, p, i as int);
    }
    let ghost rest = s@.skip(i as int);
    let mut end: usize = s.len();
    while i < end && is_white(s[end - 1])
        invariant
            i <= end <= s.len(),
            p == (|c: char| white_space(c)),
            rest == s@.skip(i as int),
            forall|j: int| end - i <= j < rest.len() ==> p(#[trigger] rest[j]),
        decreases end,
    {
        end = end - 1;
        assert(rest[end - i] == s@[end as int]);
    }
    proof {
        if i < end {
            assert(rest[end - i - 1] == s@[end - 1]);
        }
        lemma_trailing_is(rest, p, s.len() - end);
    }
    assert(s@.subrange(i as int, end as int) =~= rest.take(rest.len() - trailing(rest, p)));
    (i, end)
}

/// The bounds of `s` without the character `c` at either end.
pub fn trim_char_bounds(s: &[char], c: char) -> (r: (usize, usize))
    ensures
        r.0 <= r.1 <= s@.len(),
        s@.subrange(r.0 as int, r.1 as int) == trim_char(s@, c),
{
    let ghost p = is_char(c);
    let mut i: usize = 0;
    while i < s.len() && s[i] == c
        invariant
            i <= s.len(),
            p == is_char(c),
            forall|j: int| 0 <= j < i ==> p(#[trigger] s@[j]),
        decreases s.len() - i,
    {
        i = i + 1;
    }
    proof {
        lemma_leading_is(s@, p, i as int);
    }
    let ghost rest = s@.skip(i as int);
    let mut end: usize = s.len();
    while i < end && s[end - 1] == c
        invariant
            i <= end <= s.len(),
            p == is_char(c),
            rest == s@.skip(i as int),
            forall|j: int| end - i <= j < rest.len() ==> p(#[trigger] rest[j]),
        decreases end,
    {
        end = end - 1;
        assert(rest[end - i] == s@[end as int]);
    }
    proof {
        if i < end {
            assert(rest[end - i - 1] == s@[end - 1]);
        }
        lemma_trailing_is(rest, p, s.len() - end);
    }
    assert(s@.subrange(i as int, end as int) =~= rest.take(rest.len() - trailing(rest, p)));
    (i, end)
}

// ---------------------------------------------------------------------------
// Words and lines
// ---------------------------------------------------------------------------

/// The test for white space.
pub open spec fn is_space() -> spec_fn(char) -> bool {
    |c: char| white_space(c)
}

/// The test for anything but white space.
pub open spec fn not_space() -> spec_fn(char) -> bool {
    |c: char| !white_space(c)
}

/// The words of a text: its longest pieces without white space.
pub open spec fn words(s: Seq<char>) -> Seq<Seq<char>>
    decreases s.len(),
{
    proof {
        lemma_leading(s, is_space());
        lemma_leading(s.skip(leading(s, is_space())), not_space());
    }
    let rest = s.skip(leading(s, is_space()));
    let n = leading(rest, not_space());
    if rest.len() == 0 || n <= 0 {
        Seq::empty()
    } else {
        seq![rest.take(n)] + words(rest.skip(n))
    }
}

/// The words of a text.
pub fn split_words(s: &[char]) -> (r: Vec<Vec<char>>)
    ensures
        r@.len() == words(s@).len(),
        forall|i: int| 0 <= i < r@.len() ==> (#[trigger] r@[i])@ == words(s@)[i],
{
    let mut out: Vec<Vec<char>> = Vec::new();
    let mut from: usize = 0;
    let ghost all = words(s@);
    assert(s@.skip(0) =~= s@);
    loop
        invariant
            from <= s.len(),
            all == words(s@),
            all.len() == out@.len() + words(s@.skip(from as int)).len(),
            forall|i: int| 0 <= i < out@.len() ==> (#[trigger] out@[i])@ == all[i],
            forall|i: int|
                0 <= i < words(s@.skip(from as int)).len() ==> all[out@.len() + i] == (
                #[trigger] words(s@.skip(from as int))[i]),
        decreases s.len() - from,
    {
        let ghost here = s@.skip(from as int);
        let mut a: usize = from;
        while a < s.len() && is_white(s[a])
            invariant
                from <= a <= s.len(),
                here == s@.skip(from as int),
                forall|j: int| 0 <= j < a - from ==> is_space()(#[trigger] here[j]),
            decreases s.len() - a,
        {
            a = a + 1;
        }
        proof {
            if a < s@.len() {
                assert(here[a - from] == s@[a as int]);
            }
            lemma_leading_is(here, is_space(), a - from);
        }
        let ghost rest = here.skip(a - from);
        assert(rest =~= s@.skip(a as int));
        if a == s.len() {
            return out;
        }
        let mut b: usize = a;
        while b < s.len() && !is_white(s[b])
            invariant
                a <= b <= s.len(),
                rest == s@.skip(a as int),
                forall|j: int| 0 <= j < b - a ==> not_space()(#[trigger] rest[j]),
            decreases s.len() - b,
        {
            b = b + 1;
        }
        proof {
            if b < s@.len() {
                assert(rest[b - a] == s@[b as int]);
            }
            lemma_leading_is(rest, not_space(), b - a);
            assert(rest[0] == s@[a as int]);
        }
        let word: Vec<char> = chars_in(s, a, b);
        let ghost tail = words(rest.skip(b - a));
        let ghost before = out@.len();
        assert(word@ =~= rest.take(b - a));
        assert(words(here) == seq![word@] + tail);
        assert(all[before as int] == words(here)[0]);
        out.push(word);
        from = b;
        assert(s@.skip(from as int) =~= rest.skip(b - a));
        assert forall|i: int| 0 <= i < tail.len() implies all[out@.len() + i] == (#[trigger] tail[i]) by {
            assert(words(here)[i + 1] == tail[i]);
            assert(all[before + (i + 1)] == words(here)[i + 1]);
        }
    }
}

/// A line without the carriage return that ends it.
pub open spec fn without_cr(line: Seq<char>) -> Seq<char> {
    if line.len() > 0 && line.last() == '\r' {
        line.drop_last()
    } else {
        line
    }
}

/// The lines of a text: each ends in a line feed, which goes along with a
/// carriage return before it, or is what is left at the end.
pub open spec fn text_lines(s: Seq<char>) -> Seq<Seq<char>>
    decreases s.len(),
{
    proof {
        lemma_scan(s, '\n');
    }
    let at = scan(s, '\n');
    if s.len() == 0 {
        Seq::empty()
    } else if at >= s.len() || at < 0 {
        seq![s]
    } else {
        seq![without_cr(s.take(at))] + text_lines(s.skip(at + 1))
    }
}

/// The lines of a text.
pub fn split_lines(s: &[char]) -> (r: Vec<Vec<char>>)
    ensures
        r@.len() == text_lines(s@).len(),
        forall|i: int| 0 <= i < r@.len() ==> (#[trigger] r@[i])@ == text_lines(s@)[i],
{
    let mut out: Vec<Vec<char>> = Vec::new();
    let mut from: usize = 0;
    let ghost all = text_lines(s@);
    assert(s@.skip(0) =~= s@);
    while from < s.len()
        invariant
            from <= s.len(),
            all == text_lines(s@),
            all.len() == out@.len() + text_lines(s@.skip(from as int)).len(),
            forall|i: int| 0 <= i < out@.len() ==> (#[trigger] out@[i])@ == all[i],
            forall|i: int|
                0 <= i < text_lines(s@.skip(from as int)).len() ==> all[out@.len() + i] == (
                #[trigger] text_lines(s@.skip(from as int))[i]),
        decreases s.len() - from,
    {
        let at: usize = scan_chars(s, '\n', from);
        let ghost rest = s@.skip(from as int);
        let ghost before = out@.len();
        proof {
            lemma_scan(rest, '\n');
        }
        let end: usize = if at < s.len() && at > from && s[at - 1] == '\r' {
            at - 1
        } else {
            at
        };
        let line: Vec<char> = chars_in(s, from, end);
        let ghost tail = if at < s.len() {
            text_lines(rest.skip(scan(rest, '\n') + 1))
        } else {
            Seq::empty()
        };
        assert(line@ =~= (if at < s.len() {
            without_cr(rest.take(scan(rest, '\n')))
        } else {
            rest
        }));
        assert(text_lines(rest) =~= seq![line@] + tail);
        assert(all[before as int] == text_lines(rest)[0]);
        out.push(line);
        from = if at < s.len() {
            at + 1
        } else {
            at
        };
        assert(at < s@.len() ==> s@.skip(from as int) =~= rest.skip(scan(rest, '\n') + 1));
        assert(text_lines(s@.skip(from as int)) =~= tail);
        assert forall|i: int| 0 <= i < tail.len() implies all[out@.len() + i] == (#[trigger] tail[i]) by {
            assert(text_lines(rest)[i + 1] == tail[i]);
            assert(all[before + (i + 1)] == text_lines(rest)[i + 1]);
        }
    }
    assert(text_lines(s@.skip(from as int)) =~= Seq::empty());
    out
}

// ---------------------------------------------------------------------------
// ASCII text as bytes
// ---------------------------------------------------------------------------

/// The bytes of an ASCII text.
pub open spec fn ascii(s: Seq<char>) -> Seq<u8> {
    Seq::new(s.len(), |i: int| s[i] as u8)
}

/// The bytes of an ASCII text.
pub fn ascii_bytes(s: &str) -> (r: Vec<u8>)
    ensures
        r@ == ascii(s@),
{
    let chars: Vec<char> = chars_of(s);
    let mut out: Vec<u8> = Vec::new();
    let mut i: usize = 0;
    while i < chars.len()
        invariant
            i <= chars.len(),
            chars@ == s@,
            out@ == ascii(s@).take(i as int),
        decreases chars.len() - i,
    {
        out.push(chars[i] as u8);
        i = i + 1;
        assert(ascii(s@).take(i as int) =~= ascii(s@).take(i - 1).push(ascii(s@)[i - 1]));
    }
    assert(ascii(s@).take(s@.len() as int) =~= ascii(s@));
    out
}

// ---------------------------------------------------------------------------
// UTF-8
// ---------------------------------------------------------------------------

/// `std::str::from_utf8`: the text that `bytes` encode, or nothing when they
/// are not valid UTF-8. The text's own bytes are `bytes`.
#[verifier::external_body]
fn text_of_utf8<'a>(bytes: &'a [u8]) -> (r: Option<&'a str>)
    ensures
        match r {
            Some(s) => vstd::utf8::valid_utf8(bytes@) && vstd::utf8::encode_utf8(s@) == bytes@,
            None => !vstd::utf8::valid_utf8(bytes@),
        },
{
    std::str::from_utf8(bytes).ok()
}

/// The text that `bytes` encode, or nothing when they are not valid UTF-8.
pub fn decode<'a>(bytes: &'a [u8]) -> (r: Option<&'a str>)
    ensures
        match r {
            Some(s) => vstd::utf8::valid_utf8(bytes@) && s@ == vstd::utf8::decode_utf8(bytes@),
            None => !vstd::utf8::valid_utf8(bytes@),
        },
{
    match text_of_utf8(bytes) {
        Some(s) => {
            proof {
                vstd::utf8::encode_utf8_decode_utf8(s@);
            }
            Some(s)
        },
        None => None,
    }
}

// ---------------------------------------------------------------------------
// Laws
// ---------------------------------------------------------------------------

/// Whether `s` is the word `w`, each small ASCII letter of it in either case.
pub open spec fn reads_as(s: Seq<char>, w: Seq<char>) -> bool {
    s.len() == w.len() && forall|i: int|
        0 <= i < s.len() ==> (#[trigger] s[i] == w[i] || 97 <= w[i] as int <= 122 && s[i] as int + 32
            == w[i] as int)
}

/// Lowering changes the case of the capital letters of ASCII, and nothing else.
pub proof fn law_lower_changes_only_capitals(s: Seq<char>, i: int)
    requires
        0 <= i < s.len(),
    ensures
        lower(s).len() == s.len(),
        65 <= s[i] as int <= 90 ==> lower(s)[i] as int == s[i] as int + 32,
        !(65 <= s[i] as int <= 90) ==> lower(s)[i] == s[i],
{
}

/// A text lowers to a word without capital letters exactly if it is that word but
/// for case.
pub proof fn law_lower_is_blind_to_case(s: Seq<char>, w: Seq<char>)
    requires
        forall|i: int| 0 <= i < w.len() ==> !(65 <= #[trigger] w[i] as int <= 90),
    ensures
        lower(s) == w <==> reads_as(s, w),
{
    if reads_as(s, w) {
        assert forall|i: int| 0 <= i < s.len() implies lower(s)[i] == w[i] by {
            law_lower_changes_only_capitals(s, i);
            assert(s[i] == w[i] || 97 <= w[i] as int <= 122 && s[i] as int + 32 == w[i] as int);
            assert(!(65 <= w[i] as int <= 90));
            assert(lower(s)[i] as int == w[i] as int);
        }
        assert(lower(s) =~= w);
    }
    if lower(s) == w {
        assert forall|i: int| 0 <= i < s.len() implies (#[trigger] s[i] == w[i] || 97 <= w[i] as int
            <= 122 && s[i] as int + 32 == w[i] as int) by {
            law_lower_changes_only_capitals(s, i);
        }
    }
}

/// Byte strings are the same but for case exactly if they are as long and each
/// byte is the same, or the other case of the same letter.
pub proof fn law_same_but_case_is_blind_to_letters_case(a: Seq<u8>, b: Seq<u8>)
    ensures
        same_but_case(a, b) <==> a.len() == b.len() && forall|i: int|
            0 <= i < a.len() ==> {
                ||| #[trigger] a[i] == b[i]
                ||| 65 <= a[i] <= 90 && b[i] == a[i] + 32
                ||| 97 <= a[i] <= 122 && b[i] == a[i] - 32
            },
{
    if same_but_case(a, b) {
        assert forall|i: int| 0 <= i < a.len() implies {
            ||| #[trigger] a[i] == b[i]
            ||| 65 <= a[i] <= 90 && b[i] == a[i] + 32
            ||| 97 <= a[i] <= 122 && b[i] == a[i] - 32
        } by {
            assert(lower_byte(a[i]) == lower_byte(b[i]));
        }
    }
}

/// White space is what Unicode counts as such: the blanks and line ends of ASCII,
/// and the listed ones beyond it. No other character of ASCII is.
pub proof fn law_white_space_is_the_blanks(c: char)
    ensures
        c == ' ' || c == '\t' || c == '\n' || c == '\r' || c as int == 11 || c as int == 12
            ==> white_space(c),
        c as int <= 127 && c != ' ' && !(9 <= c as int <= 13) ==> !white_space(c),
        c as int == 0x85 || c as int == 0xa0 || c as int == 0x1680 || 0x2000 <= c as int <= 0x200a
            || c as int == 0x2028 || c as int == 0x2029 || c as int == 0x202f || c as int == 0x205f
            || c as int == 0x3000 ==> white_space(c),
        white_space(c) && c as int > 127 ==> c as int == 0x85 || c as int == 0xa0 || c as int
            == 0x1680 || 0x2000 <= c as int <= 0x200a || c as int == 0x2028 || c as int == 0x2029
            || c as int == 0x202f || c as int == 0x205f || c as int == 0x3000,
{
}

/// The blanks of ASCII among bytes.
pub proof fn law_ascii_space_is_the_blanks(b: u8)
    ensures
        ascii_space(b) <==> (b == 0x20 || b == 0x09 || b == 0x0a || b == 0x0c || b == 0x0d),
{
}

/// Trimming takes off what is to go at either end, and leaves the rest as it is.
pub proof fn law_trim_takes_the_ends_off<T>(before: Seq<T>, inner: Seq<T>, after: Seq<T>, p: spec_fn(T) -> bool)
    requires
        forall|i: int| 0 <= i < before.len() ==> p(#[trigger] before[i]),
        forall|i: int| 0 <= i < after.len() ==> p(#[trigger] after[i]),
        inner.len() > 0 ==> !p(inner[0]) && !p(inner.last()),
    ensures
        trim(before + inner + after, p) == inner,
{
    let s = before + inner + after;
    if inner.len() == 0 {
        assert forall|i: int| 0 <= i < s.len() implies p(#[trigger] s[i]) by {
            if i < before.len() {
                assert(s[i] == before[i]);
            } else {
                assert(s[i] == after[i - before.len()]);
            }
        }
        lemma_leading_is(s, p, s.len() as int);
        let rest = s.skip(s.len() as int);
        assert(rest =~= Seq::empty());
        lemma_trailing(rest, p);
        assert(trim(s, p) =~= inner);
    } else {
        assert forall|i: int| 0 <= i < before.len() implies p(#[trigger] s[i]) by {
            assert(s[i] == before[i]);
        }
        assert(s[before.len() as int] == inner[0]);
        lemma_leading_is(s, p, before.len() as int);
        let tail = s.skip(before.len() as int);
        assert(tail =~= inner + after);
        assert forall|i: int| tail.len() - after.len() <= i < tail.len() implies p(#[trigger] tail[i]) by {
            assert(tail[i] == after[i - inner.len()]);
        }
        assert(tail[inner.len() - 1] == inner.last());
        lemma_trailing_is(tail, p, after.len() as int);
        assert(tail.take(inner.len() as int) =~= inner);
    }
}

/// Every text is what is trimmed off it and what is left.
pub proof fn lemma_trim_parts<T>(s: Seq<T>, p: spec_fn(T) -> bool) -> (r: (Seq<T>, Seq<T>))
    ensures
        s == r.0 + trim(s, p) + r.1,
        forall|i: int| 0 <= i < r.0.len() ==> p(#[trigger] r.0[i]),
        forall|i: int| 0 <= i < r.1.len() ==> p(#[trigger] r.1[i]),
{
    lemma_leading(s, p);
    let n = leading(s, p);
    let rest = s.skip(n);
    lemma_trailing(rest, p);
    let m = rest.len() - trailing(rest, p);
    let before = s.take(n);
    let after = rest.skip(m);
    assert(s =~= before + trim(s, p) + after);
    (before, after)
}

/// A word in front of white space, or of the end, is the first word, and the
/// words behind it follow; white space in front of a word is no word.
pub proof fn law_words_are_what_is_between_white_space(
    before: Seq<char>,
    word: Seq<char>,
    rest: Seq<char>,
)
    requires
        forall|i: int| 0 <= i < before.len() ==> white_space(#[trigger] before[i]),
        forall|i: int| 0 <= i < word.len() ==> !white_space(#[trigger] word[i]),
        rest.len() > 0 ==> white_space(rest[0]),
    ensures
        word.len() > 0 ==> words(before + word + rest) == seq![word] + words(rest),
        words(before) == Seq::<Seq<char>>::empty(),
{
    lemma_leading_is(before, is_space(), before.len() as int);
    assert(before.skip(before.len() as int) =~= Seq::empty());
    if word.len() > 0 {
        let s = before + word + rest;
        assert forall|i: int| 0 <= i < before.len() implies is_space()(#[trigger] s[i]) by {
            assert(s[i] == before[i]);
        }
        assert(s[before.len() as int] == word[0]);
        lemma_leading_is(s, is_space(), before.len() as int);
        let tail = s.skip(before.len() as int);
        assert(tail =~= word + rest);
        assert forall|i: int| 0 <= i < word.len() implies not_space()(#[trigger] tail[i]) by {
            assert(tail[i] == word[i]);
        }
        if rest.len() > 0 {
            assert(tail[word.len() as int] == rest[0]);
        }
        lemma_leading_is(tail, not_space(), word.len() as int);
        assert(tail.take(word.len() as int) =~= word);
        assert(tail.skip(word.len() as int) =~= rest);
    }
}

/// A text of words with white space before, between and behind them.
pub open spec fn spaced(gaps: Seq<Seq<char>>, fields: Seq<Seq<char>>) -> Seq<char>
    decreases fields.len(),
{
    if fields.len() == 0 {
        gaps[0]
    } else {
        gaps[0] + fields[0] + spaced(gaps.drop_first(), fields.drop_first())
    }
}

/// Whether words and gaps are such: no word is empty or holds white space, the
/// gaps are white space, and those between words are not empty.
pub open spec fn spaces(gaps: Seq<Seq<char>>, fields: Seq<Seq<char>>) -> bool {
    &&& gaps.len() == fields.len() + 1
    &&& forall|i: int, j: int|
        0 <= i < gaps.len() && 0 <= j < gaps[i].len() ==> white_space(#[trigger] gaps[i][j])
    &&& forall|i: int| 0 < i < gaps.len() - 1 ==> (#[trigger] gaps[i]).len() > 0
    &&& forall|i: int| 0 <= i < fields.len() ==> (#[trigger] fields[i]).len() > 0
    &&& forall|i: int, j: int|
        0 <= i < fields.len() && 0 <= j < fields[i].len() ==> !white_space(#[trigger] fields[i][j])
}

/// A text reads as the words it was built of, whatever white space is between
/// them.
pub proof fn law_words_read_back(gaps: Seq<Seq<char>>, fields: Seq<Seq<char>>)
    requires
        spaces(gaps, fields),
    ensures
        words(spaced(gaps, fields)) == fields,
    decreases fields.len(),
{
    let before = gaps[0];
    if fields.len() == 0 {
        law_words_are_what_is_between_white_space(before, Seq::empty(), Seq::empty());
        assert(fields =~= Seq::empty());
    } else {
        let g = gaps.drop_first();
        let f = fields.drop_first();
        assert forall|i: int, j: int| 0 <= i < g.len() && 0 <= j < g[i].len() implies white_space(
            #[trigger] g[i][j],
        ) by {
            assert(g[i] == gaps[i + 1]);
            assert(white_space(gaps[i + 1][j]));
        }
        assert forall|i: int| 0 < i < g.len() - 1 implies (#[trigger] g[i]).len() > 0 by {
            assert(gaps[i + 1].len() > 0);
        }
        assert forall|i: int| 0 <= i < f.len() implies (#[trigger] f[i]).len() > 0 by {
            assert(fields[i + 1].len() > 0);
        }
        assert forall|i: int, j: int| 0 <= i < f.len() && 0 <= j < f[i].len() implies !white_space(
            #[trigger] f[i][j],
        ) by {
            assert(!white_space(fields[i + 1][j]));
        }
        law_words_read_back(g, f);
        let rest = spaced(g, f);
        assert(g[0] == gaps[1]);
        if rest.len() > 0 {
            if f.len() > 0 {
                assert(gaps[1].len() > 0);
            }
            assert(rest[0] == gaps[1][0]);
            assert(white_space(gaps[1][0]));
        }
        assert forall|j: int| 0 <= j < before.len() implies white_space(#[trigger] before[j]) by {
            assert(white_space(gaps[0][j]));
        }
        assert forall|j: int| 0 <= j < fields[0].len() implies !white_space(#[trigger] fields[0][j]) by {
        }
        assert(fields[0].len() > 0);
        law_words_are_what_is_between_white_space(before, fields[0], rest);
        assert(seq![fields[0]] + f =~= fields);
    }
}

/// A line before a line feed is the first line, without a carriage return at its
/// end, and the lines behind it follow; what is left at the end is a line too.
pub proof fn law_lines_end_in_line_feeds(line: Seq<char>, rest: Seq<char>)
    requires
        !line.contains('\n'),
    ensures
        text_lines(line + seq!['\n'] + rest) == seq![
            if line.len() > 0 && line.last() == '\r' {
                line.take(line.len() - 1)
            } else {
                line
            },
        ] + text_lines(rest),
        line.len() > 0 ==> text_lines(line) == seq![line],
        text_lines(Seq::<char>::empty()) == Seq::<Seq<char>>::empty(),
{
    let s = line + seq!['\n'] + rest;
    assert forall|j: int| 0 <= j < line.len() implies s[j] != '\n' && line[j] != '\n' by {
        assert(s[j] == line[j]);
        assert(line.contains(line[j]));
    }
    assert(s[line.len() as int] == '\n');
    lemma_scan_is(s, '\n', line.len() as int);
    assert(s.take(line.len() as int) =~= line);
    assert(s.skip(line.len() as int + 1) =~= rest);
    if line.len() > 0 {
        assert(line.drop_last() =~= line.take(line.len() - 1));
        lemma_scan_is(line, '\n', line.len() as int);
    }
}

/// The digits of a base up to sixteen: the ten figures, then the letters `a` to
/// `f` in either case. Nothing else is one.
pub proof fn law_digits(c: char, radix: int)
    requires
        2 <= radix <= 16,
    ensures
        digit_of(c, radix) == (if 48 <= c as int <= 57 && c as int - 48 < radix {
            Some(c as int - 48)
        } else if 97 <= c as int <= 102 && c as int - 87 < radix {
            Some(c as int - 87)
        } else if 65 <= c as int <= 70 && c as int - 55 < radix {
            Some(c as int - 55)
        } else {
            None
        }),
{
}

/// A numeral is read digit by digit: one digit is its value, a digit behind a
/// numeral counts once and the numeral `radix` times, and a plus sign in front
/// changes nothing. A value above `max` is no numeral, and neither is anything
/// with a character that is no digit.
pub proof fn law_numeral_is_read_digit_by_digit(s: Seq<char>, c: char, radix: int, max: int)
    requires
        2 <= radix <= 16,
        max >= 16,
    ensures
        numeral(seq![c], radix, max) == digit_of(c, radix),
        numeral(Seq::empty(), radix, max) is None,
        s.len() > 0 && s != seq!['+'] ==> numeral(s.push(c), radix, max) == (match (
            numeral(s, radix, max),
            digit_of(c, radix),
        ) {
            (Some(v), Some(d)) => if v * radix + d <= max {
                Some(v * radix + d)
            } else {
                None
            },
            _ => None,
        }),
        s.len() > 0 && s[0] != '+' ==> numeral(seq!['+'] + s, radix, max) == numeral(s, radix, max),
        numeral(seq!['+'], radix, max) is None,
{
    let one = seq![c];
    assert(one.drop_last() =~= Seq::<char>::empty());
    assert(one.last() == c);
    assert(digits_value(one.drop_last(), radix) == 0);
    assert(0 * radix == 0);
    if digit_of(c, radix) is Some {
        assert(digits_value(one, radix) == digit_of(c, radix)->0);
        assert(all_digits(one, radix));
    } else {
        assert(digit_of(one[0], radix) is None);
    }
    if c == '+' {
        assert(one.skip(1) =~= Seq::<char>::empty());
    }
    assert(seq!['+'].skip(1) =~= Seq::<char>::empty());
    if s.len() > 0 && s[0] != '+' {
        assert((seq!['+'] + s).skip(1) =~= s);
    }
    if s.len() > 0 && s != seq!['+'] {
        let t = s.push(c);
        let ds = if s[0] == '+' {
            s.skip(1)
        } else {
            s
        };
        let dt = if t[0] == '+' {
            t.skip(1)
        } else {
            t
        };
        assert(dt =~= ds.push(c));
        if s[0] == '+' && s.len() == 1 {
            assert(s =~= seq!['+']);
        }
        assert(ds.len() > 0);
        assert(dt.drop_last() =~= ds);
        assert(dt.last() == c);
        assert(all_digits(dt, radix) <==> all_digits(ds, radix) && digit_of(c, radix) is Some) by {
            if all_digits(dt, radix) {
                assert forall|i: int| 0 <= i < ds.len() implies (#[trigger] digit_of(ds[i], radix)) is Some by {
                    assert(dt[i] == ds[i]);
                }
                assert(digit_of(dt[ds.len() as int], radix) is Some);
            }
            if all_digits(ds, radix) && digit_of(c, radix) is Some {
                assert forall|i: int| 0 <= i < dt.len() implies (#[trigger] digit_of(dt[i], radix)) is Some by {
                    if i < ds.len() {
                        assert(dt[i] == ds[i]);
                    }
                }
            }
        }
        if all_digits(ds, radix) {
            lemma_digits_not_negative(ds, radix);
            let v = digits_value(ds, radix);
            if v > max {
                assert(v * radix >= v) by (nonlinear_arith)
                    requires
                        v >= 0,
                        radix >= 2,
                ;
            }
        }
    }
}

proof fn lemma_digits_not_negative(s: Seq<char>, radix: int)
    requires
        2 <= radix <= 16,
    ensures
        digits_value(s, radix) >= 0,
    decreases s.len(),
{
    if s.len() > 0 {
        lemma_digits_not_negative(s.drop_last(), radix);
        let v = digits_value(s.drop_last(), radix);
        assert(v * radix >= 0) by (nonlinear_arith)
            requires
                v >= 0,
                radix >= 2,
        ;
    }
}

/// The characters of a decimal numeral, from its last: the numeral of a number
/// below ten is its figure, and that of a larger one ends in the figure of its
/// remainder behind the numeral of its quotient.
pub proof fn law_decimal_ends_in_the_remainder(n: nat)
    ensures
        n < 10 ==> decimal(n) == seq![(48 + n) as char],
        n >= 10 ==> decimal(n) == decimal(n / 10) + seq![(48 + n % 10) as char],
{
    if n >= 10 {
        assert(decimal(n) =~= decimal(n / 10) + seq![(48 + n % 10) as char]);
    }
}

/// A separator parts what is before it, which holds none, from the pieces behind
/// it; without one there is one piece.
pub proof fn law_split_parts_at_the_separator<T>(a: Seq<T>, sep: T, b: Seq<T>)
    requires
        !a.contains(sep),
    ensures
        split(a + seq![sep] + b, sep) == seq![a] + split(b, sep),
        split(a, sep) == seq![a],
{
    assert forall|j: int| 0 <= j < a.len() implies a[j] != sep by {
        assert(a.contains(a[j]));
    }
    lemma_split_whole(a, sep);
    lemma_split_join(a, sep, b);
}

/// What is found is the first place at which the sequence holds the pattern:
/// it is there, and nowhere before; where nothing is found, it is nowhere.
pub proof fn law_find_is_the_first_place<T>(s: Seq<T>, pat: Seq<T>, at: int)
    requires
        0 <= at,
        at + pat.len() <= s.len(),
    ensures
        find(s, pat) is None ==> s.subrange(at, at + pat.len()) != pat,
        find(s, pat) matches Some(first) ==> {
            &&& 0 <= first
            &&& first + pat.len() <= s.len()
            &&& s.subrange(first, first + pat.len()) == pat
            &&& at < first ==> s.subrange(at, at + pat.len()) != pat
        },
{
    lemma_found(s, pat, 0);
    if s.subrange(at, at + pat.len()) == pat {
        lemma_found_by(s, pat, 0, at);
    }
}

/// A byte is shown by two figures, that of its upper half first.
pub proof fn law_byte_is_shown_by_its_halves(b: u8)
    ensures
        hex_byte(b).len() == 2,
        digit_of(hex_byte(b)[0], 16) == Some(b as int / 16),
        digit_of(hex_byte(b)[1], 16) == Some(b as int % 16),
        forall|i: int| 0 <= i < 2 ==> !(65 <= #[trigger] hex_byte(b)[i] as int <= 90),
{
}

} // verus!
