//! Text helpers on strings and their UTF-8 bytes.

use vstd::prelude::*;
use vstd::utf8::{encode_utf8, encode_utf8_decode_utf8};

verus! {

/// The UTF-8 bytes of a character sequence.
pub open spec fn utf8_bytes(s: Seq<char>) -> Seq<u8> {
    encode_utf8(s)
}

/// Two character sequences are equal exactly when their encodings are.
pub proof fn lemma_utf8_injective(a: Seq<char>, b: Seq<char>)
    ensures
        (utf8_bytes(a) == utf8_bytes(b)) == (a == b),
{
    encode_utf8_decode_utf8(a);
    encode_utf8_decode_utf8(b);
}

/// Lexicographic order of byte strings: the order of `Ord` on `[u8]`, and so on
/// `str` and `String`.
pub open spec fn lex_lt(a: Seq<u8>, b: Seq<u8>) -> bool
    decreases a.len(),
{
    if a.len() == 0 {
        b.len() > 0
    } else if b.len() == 0 {
        false
    } else if a[0] != b[0] {
        a[0] < b[0]
    } else {
        lex_lt(a.drop_first(), b.drop_first())
    }
}

/// `a` comes before `b` in the order of `String`.
pub open spec fn str_lt(a: Seq<char>, b: Seq<char>) -> bool {
    lex_lt(utf8_bytes(a), utf8_bytes(b))
}

pub proof fn lemma_lex_irreflexive(a: Seq<u8>)
    ensures
        !lex_lt(a, a),
    decreases a.len(),
{
    if a.len() > 0 {
        lemma_lex_irreflexive(a.drop_first());
    }
}

pub proof fn lemma_lex_asymmetric(a: Seq<u8>, b: Seq<u8>)
    ensures
        !(lex_lt(a, b) && lex_lt(b, a)),
    decreases a.len(),
{
    if a.len() > 0 && b.len() > 0 && a[0] == b[0] {
        lemma_lex_asymmetric(a.drop_first(), b.drop_first());
    }
}

pub proof fn lemma_lex_transitive(a: Seq<u8>, b: Seq<u8>, c: Seq<u8>)
    requires
        lex_lt(a, b),
        lex_lt(b, c),
    ensures
        lex_lt(a, c),
    decreases a.len(),
{
    if a.len() > 0 && b.len() > 0 && c.len() > 0 && a[0] == b[0] && b[0] == c[0] {
        lemma_lex_transitive(a.drop_first(), b.drop_first(), c.drop_first());
    }
}

pub proof fn lemma_lex_total(a: Seq<u8>, b: Seq<u8>)
    ensures
        a == b || lex_lt(a, b) || lex_lt(b, a),
    decreases a.len(),
{
    if a.len() > 0 && b.len() > 0 && a[0] == b[0] {
        lemma_lex_total(a.drop_first(), b.drop_first());
        if a.drop_first() == b.drop_first() {
            assert(a =~= seq![a[0]] + a.drop_first());
            assert(b =~= seq![b[0]] + b.drop_first());
        }
    } else if a.len() == 0 && b.len() == 0 {
        assert(a =~= b);
    }
}

/// The order of `String` is a strict total order.
pub proof fn lemma_str_order(a: Seq<char>, b: Seq<char>, c: Seq<char>)
    ensures
        !str_lt(a, a),
        !(str_lt(a, b) && str_lt(b, a)),
        str_lt(a, b) && str_lt(b, c) ==> str_lt(a, c),
        a == b || str_lt(a, b) || str_lt(b, a),
{
    lemma_lex_irreflexive(utf8_bytes(a));
    lemma_lex_asymmetric(utf8_bytes(a), utf8_bytes(b));
    if str_lt(a, b) && str_lt(b, c) {
        lemma_lex_transitive(utf8_bytes(a), utf8_bytes(b), utf8_bytes(c));
    }
    lemma_lex_total(utf8_bytes(a), utf8_bytes(b));
    lemma_utf8_injective(a, b);
}

proof fn lemma_lex_skip(a: Seq<u8>, b: Seq<u8>, i: int)
    requires
        0 <= i <= a.len(),
        i <= b.len(),
        a.take(i) == b.take(i),
    ensures
        lex_lt(a, b) == lex_lt(a.skip(i), b.skip(i)),
    decreases i,
{
    if i > 0 {
        assert(a[0] == a.take(i)[0]);
        assert(b[0] == b.take(i)[0]);
        assert(a.drop_first().take(i - 1) =~= a.take(i).drop_first());
        assert(b.drop_first().take(i - 1) =~= b.take(i).drop_first());
        lemma_lex_skip(a.drop_first(), b.drop_first(), i - 1);
        assert(a.drop_first().skip(i - 1) =~= a.skip(i));
        assert(b.drop_first().skip(i - 1) =~= b.skip(i));
    } else {
        assert(a.skip(0) =~= a);
        assert(b.skip(0) =~= b);
    }
}

/// Byte-wise lexicographic comparison, as `<` on byte slices.
pub fn bytes_lt(a: &[u8], b: &[u8]) -> (r: bool)
    ensures
        r == lex_lt(a@, b@),
{
    let mut i: usize = 0;
    while i < a.len() && i < b.len()
        invariant
            i <= a@.len(),
            i <= b@.len(),
            a@.take(i as int) == b@.take(i as int),
        decreases a@.len() - i,
    {
        if a[i] != b[i] {
            proof {
                lemma_lex_skip(a@, b@, i as int);
            }
            return a[i] < b[i];
        }
        assert(a@.take(i + 1) =~= a@.take(i as int).push(a@[i as int]));
        assert(b@.take(i + 1) =~= b@.take(i as int).push(b@[i as int]));
        i = i + 1;
    }
    proof {
        lemma_lex_skip(a@, b@, i as int);
    }
    i < b.len()
}

/// Byte-wise equality of two byte slices.
pub fn bytes_eq(a: &[u8], b: &[u8]) -> (r: bool)
    ensures
        r == (a@ == b@),
{
    if a.len() != b.len() {
        return false;
    }
    let mut i: usize = 0;
    while i < a.len()
        invariant
            i <= a@.len(),
            a@.len() == b@.len(),
            a@.take(i as int) == b@.take(i as int),
        decreases a@.len() - i,
    {
        if a[i] != b[i] {
            assert(a@[i as int] != b@[i as int]);
            return false;
        }
        assert(a@.take(i + 1) =~= a@.take(i as int).push(a@[i as int]));
        assert(b@.take(i + 1) =~= b@.take(i as int).push(b@[i as int]));
        i = i + 1;
    }
    assert(a@.take(i as int) =~= a@);
    assert(b@.take(i as int) =~= b@);
    true
}

/// `a < b` on strings.
pub fn text_lt(a: &str, b: &str) -> (r: bool)
    ensures
        r == str_lt(a@, b@),
{
    bytes_lt(a.as_bytes(), b.as_bytes())
}

/// `a == b` on strings.
pub fn text_eq(a: &str, b: &str) -> (r: bool)
    ensures
        r == (a@ == b@),
{
    proof {
        lemma_utf8_injective(a@, b@);
    }
    bytes_eq(a.as_bytes(), b.as_bytes())
}

/// Appends one character to a string (`String::push`).
#[verifier::external_body]
fn push_char(s: &mut String, c: char)
    ensures
        final(s)@ == old(s)@.push(c),
{
    s.push(c);
}

/// The characters of a string slice, in order.
pub fn chars_of(s: &str) -> (v: Vec<char>)
    ensures
        v@ == s@,
{
    let mut v: Vec<char> = Vec::new();
    for c in it: s.chars()
        invariant
            v@ == it.seq().take(it.index() as int),
            it.seq() == s@,
    {
        v.push(c);
    }
    v
}

/// A string made of the given characters.
pub fn string_of(cs: &Vec<char>) -> (s: String)
    ensures
        s@ == cs@,
{
    let mut s = String::new();
    let mut i: usize = 0;
    while i < cs.len()
        invariant
            i <= cs@.len(),
            s@ == cs@.take(i as int),
        decreases cs@.len() - i,
    {
        push_char(&mut s, cs[i]);
        assert(cs@.take(i + 1) =~= cs@.take(i as int).push(cs@[i as int]));
        i = i + 1;
    }
    assert(cs@.take(i as int) =~= cs@);
    s
}


/// The character of a decimal digit.
pub open spec fn digit_char(d: int) -> char {
    (d + 48) as char
}

/// The decimal digits of a natural number, most significant first, with no
/// leading zero (`"0"` for zero): what `Display` writes for an unsigned integer.
pub open spec fn decimal(n: nat) -> Seq<char>
    decreases n,
{
    if n < 10 {
        seq![digit_char(n as int)]
    } else {
        decimal(n / 10).push(digit_char((n % 10) as int))
    }
}

/// Appends the decimal digits of `n`.
pub fn push_decimal(out: &mut Vec<char>, n: u64)
    ensures
        final(out)@ == old(out)@ + decimal(n as nat),
    decreases n,
{
    if n >= 10 {
        push_decimal(out, n / 10);
    }
    let d: u8 = (n % 10) as u8;
    let c: char = (d + 48) as char;
    out.push(c);
    assert(c == digit_char((n % 10) as int));
    proof {
        if n >= 10 {
            assert(decimal(n as nat) == decimal((n / 10) as nat).push(digit_char((n % 10) as int)));
        }
    }
}

/// `s` written in a field of at least `width` characters, padded with `'0'`
/// on the left: `{:0width$}` for a number without sign.
pub open spec fn zero_padded(s: Seq<char>, width: nat) -> Seq<char> {
    if s.len() < width {
        Seq::new((width - s.len()) as nat, |i: int| '0') + s
    } else {
        s
    }
}

/// The decimal digits of `n`, zero-padded to `width`.
pub fn padded_decimal(n: u64, width: usize) -> (r: Vec<char>)
    ensures
        r@ == zero_padded(decimal(n as nat), width as nat),
{
    let mut ds: Vec<char> = Vec::new();
    push_decimal(&mut ds, n);
    assert(ds@ =~= decimal(n as nat));
    if ds.len() >= width {
        return ds;
    }
    let mut r: Vec<char> = Vec::new();
    let pad = width - ds.len();
    let mut i: usize = 0;
    while i < pad
        invariant
            i <= pad,
            r@ == Seq::new(i as nat, |k: int| '0'),
        decreases pad - i,
    {
        r.push('0');
        assert(r@ =~= Seq::new((i + 1) as nat, |k: int| '0'));
        i = i + 1;
    }
    let mut j: usize = 0;
    while j < ds.len()
        invariant
            j <= ds@.len(),
            r@ == Seq::new(pad as nat, |k: int| '0') + ds@.take(j as int),
        decreases ds@.len() - j,
    {
        r.push(ds[j]);
        assert(ds@.take(j + 1) =~= ds@.take(j as int).push(ds@[j as int]));
        assert(r@ =~= Seq::new(pad as nat, |k: int| '0') + ds@.take(j + 1));
        j = j + 1;
    }
    assert(ds@.take(j as int) =~= ds@);
    r
}

/// Digits with a `','` between groups of three, counted from the right:
/// `"1234567"` becomes `"1,234,567"`.
pub open spec fn grouped(ds: Seq<char>) -> Seq<char>
    decreases ds.len(),
{
    if ds.len() <= 3 {
        ds
    } else {
        grouped(ds.take(ds.len() - 3)) + seq![','] + ds.skip(ds.len() - 3)
    }
}

/// Appends `grouped` of the first `end` characters of `ds`.
fn push_grouped(out: &mut Vec<char>, ds: &Vec<char>, end: usize)
    requires
        end <= ds@.len(),
    ensures
        final(out)@ == old(out)@ + grouped(ds@.take(end as int)),
    decreases end,
{
    let start: usize = if end <= 3 {
        0
    } else {
        push_grouped(out, ds, end - 3);
        out.push(',');
        end - 3
    };
    let ghost mid = out@;
    let mut i: usize = start;
    while i < end
        invariant
            start <= i <= end,
            end <= ds@.len(),
            out@ == mid + ds@.subrange(start as int, i as int),
        decreases end - i,
    {
        out.push(ds[i]);
        assert(ds@.subrange(start as int, i + 1) =~= ds@.subrange(start as int, i as int).push(
            ds@[i as int],
        ));
        i = i + 1;
    }
    let ghost t = ds@.take(end as int);
    if end > 3 {
        assert(t.take(t.len() - 3) =~= ds@.take(end - 3));
        assert(t.skip(t.len() - 3) =~= ds@.subrange(start as int, end as int));
        assert(out@ =~= old(out)@ + grouped(t));
    } else {
        assert(ds@.subrange(0, end as int) =~= t);
    }
}

/// Commas inserted between groups of three digits.
pub fn group_thousands(ds: &Vec<char>) -> (r: Vec<char>)
    ensures
        r@ == grouped(ds@),
{
    let mut r: Vec<char> = Vec::new();
    push_grouped(&mut r, ds, ds.len());
    assert(ds@.take(ds@.len() as int) =~= ds@);
    assert(r@ =~= grouped(ds@));
    r
}

/// A character's ASCII lowercase: `'A'..='Z'` become `'a'..='z'`, all else stays.
pub open spec fn ascii_lower_char(c: char) -> char {
    if 'A' <= c <= 'Z' {
        ((c as u32) + 32) as char
    } else {
        c
    }
}

/// `str::to_ascii_lowercase`.
pub open spec fn ascii_lower(s: Seq<char>) -> Seq<char> {
    s.map_values(|c: char| ascii_lower_char(c))
}

pub fn to_ascii_lower(s: &Vec<char>) -> (r: Vec<char>)
    ensures
        r@ == ascii_lower(s@),
{
    let mut r: Vec<char> = Vec::new();
    let mut i: usize = 0;
    while i < s.len()
        invariant
            i <= s@.len(),
            r@ == ascii_lower(s@.take(i as int)),
        decreases s@.len() - i,
    {
        let c = s[i];
        let l = if 'A' <= c && c <= 'Z' {
            ((c as u32) + 32) as u8 as char
        } else {
            c
        };
        assert(l == ascii_lower_char(c));
        r.push(l);
        assert(ascii_lower(s@.take(i + 1)) =~= ascii_lower(s@.take(i as int)).push(
            ascii_lower_char(c),
        ));
        i = i + 1;
    }
    assert(s@.take(i as int) =~= s@);
    r
}

/// `p` occurs in `s` starting at index `i`.
pub open spec fn occurs_at(s: Seq<char>, p: Seq<char>, i: int) -> bool {
    0 <= i && i + p.len() <= s.len() && s.subrange(i, i + p.len()) == p
}

/// `str::contains` with a string pattern.
pub open spec fn contains(s: Seq<char>, p: Seq<char>) -> bool {
    exists|i: int| occurs_at(s, p, i)
}

/// `str::ends_with` with a string pattern.
pub open spec fn ends_with(s: Seq<char>, p: Seq<char>) -> bool {
    p.len() <= s.len() && s.skip(s.len() - p.len()) == p
}

fn matches_at(s: &Vec<char>, p: &Vec<char>, i: usize) -> (r: bool)
    requires
        i + p@.len() <= s@.len(),
    ensures
        r == occurs_at(s@, p@, i as int),
{
    let mut j: usize = 0;
    while j < p.len()
        invariant
            i + p@.len() <= s@.len(),
            s@.len() == s.len(),
            j <= p@.len(),
            s@.subrange(i as int, i + j) == p@.take(j as int),
        decreases p@.len() - j,
    {
        if s[i + j] != p[j] {
            assert(s@.subrange(i as int, i + p@.len())[j as int] != p@[j as int]);
            return false;
        }
        assert(s@.subrange(i as int, i + j + 1) =~= s@.subrange(i as int, i + j).push(
            s@[i + j],
        ));
        assert(p@.take(j + 1) =~= p@.take(j as int).push(p@[j as int]));
        j = j + 1;
    }
    assert(p@.take(j as int) =~= p@);
    true
}

/// Whether `p` occurs in `s`.
pub fn seq_contains(s: &Vec<char>, p: &Vec<char>) -> (r: bool)
    ensures
        r == contains(s@, p@),
{
    if p.len() > s.len() {
        return false;
    }
    if p.len() == 0 {
        assert(s@.subrange(0, 0) =~= p@);
        assert(occurs_at(s@, p@, 0));
        return true;
    }
    let last = s.len() - p.len();
    let mut i: usize = 0;
    while i <= last
        invariant
            last == s@.len() - p@.len(),
            p@.len() > 0,
            s@.len() == s.len(),
            i <= last + 1,
            forall|k: int| 0 <= k < i ==> !occurs_at(s@, p@, k),
        decreases last + 1 - i,
    {
        if matches_at(s, p, i) {
            return true;
        }
        i = i + 1;
    }
    false
}

/// Whether `s` ends with `p`.
pub fn seq_ends_with(s: &Vec<char>, p: &Vec<char>) -> (r: bool)
    ensures
        r == ends_with(s@, p@),
{
    if p.len() > s.len() {
        return false;
    }
    let r = matches_at(s, p, s.len() - p.len());
    assert(s@.subrange(s@.len() - p@.len(), s@.len() as int) =~= s@.skip(s@.len() - p@.len()));
    r
}

/// `char::is_whitespace`: the Unicode `White_Space` property.
pub open spec fn is_white_space(c: char) -> bool {
    ||| '\u{9}' <= c <= '\u{d}'
    ||| c == ' '
    ||| c == '\u{85}'
    ||| c == '\u{a0}'
    ||| c == '\u{1680}'
    ||| '\u{2000}' <= c <= '\u{200a}'
    ||| c == '\u{2028}'
    ||| c == '\u{2029}'
    ||| c == '\u{202f}'
    ||| c == '\u{205f}'
    ||| c == '\u{3000}'
}

pub open spec fn trim_start(s: Seq<char>) -> Seq<char>
    decreases s.len(),
{
    if s.len() > 0 && is_white_space(s[0]) {
        trim_start(s.drop_first())
    } else {
        s
    }
}

pub open spec fn trim_end(s: Seq<char>) -> Seq<char>
    decreases s.len(),
{
    if s.len() > 0 && is_white_space(s.last()) {
        trim_end(s.drop_last())
    } else {
        s
    }
}

/// `str::trim`: leading and trailing white space removed.
pub open spec fn trim(s: Seq<char>) -> Seq<char> {
    trim_end(trim_start(s))
}

fn is_ws(c: char) -> (r: bool)
    ensures
        r == is_white_space(c),
{
    ('\u{9}' <= c && c <= '\u{d}') || c == ' ' || c == '\u{85}' || c == '\u{a0}' || c
        == '\u{1680}' || ('\u{2000}' <= c && c <= '\u{200a}') || c == '\u{2028}' || c
        == '\u{2029}' || c == '\u{202f}' || c == '\u{205f}' || c == '\u{3000}'
}

/// White space removed from both ends.
pub fn trim_chars(s: &Vec<char>) -> (r: Vec<char>)
    ensures
        r@ == trim(s@),
{
    let mut i: usize = 0;
    assert(s@.skip(0) =~= s@);
    while i < s.len() && is_ws(s[i])
        invariant
            i <= s@.len(),
            trim_start(s@) == trim_start(s@.skip(i as int)),
        decreases s@.len() - i,
    {
        assert(s@.skip(i as int).drop_first() =~= s@.skip(i + 1));
        i = i + 1;
    }
    assert(trim_start(s@) == s@.skip(i as int));
    let mut j: usize = s.len();
    while j > i && is_ws(s[j - 1])
        invariant
            i <= j <= s@.len(),
            trim(s@) == trim_end(s@.subrange(i as int, j as int)),
        decreases j,
    {
        assert(s@.subrange(i as int, j as int).drop_last() =~= s@.subrange(i as int, j - 1));
        j = j - 1;
    }
    assert(s@.skip(i as int) =~= s@.subrange(i as int, s@.len() as int));
    let mut r: Vec<char> = Vec::new();
    let mut k: usize = i;
    while k < j
        invariant
            i <= k <= j <= s@.len(),
            r@ == s@.subrange(i as int, k as int),
        decreases j - k,
    {
        r.push(s[k]);
        assert(s@.subrange(i as int, k + 1) =~= s@.subrange(i as int, k as int).push(s@[k as int]));
        k = k + 1;
    }
    r
}

pub open spec fn is_digit(c: char) -> bool {
    '0' <= c <= '9'
}

pub open spec fn all_digits(ds: Seq<char>) -> bool {
    forall|i: int| 0 <= i < ds.len() ==> is_digit(#[trigger] ds[i])
}

/// The number that a sequence of decimal digits spells.
pub open spec fn digits_value(ds: Seq<char>) -> int
    decreases ds.len(),
{
    if ds.len() == 0 {
        0
    } else {
        digits_value(ds.drop_last()) * 10 + (ds.last() as int - 48)
    }
}

/// The integer that `s` spells in the syntax of `FromStr` for signed integers:
/// an optional `'+'` or `'-'`, then one or more ASCII digits.
pub open spec fn spelled_int(s: Seq<char>) -> Option<int> {
    if s.len() > 0 && (s[0] == '+' || s[0] == '-') {
        let ds = s.drop_first();
        if ds.len() > 0 && all_digits(ds) {
            Some(if s[0] == '-' { -digits_value(ds) } else { digits_value(ds) })
        } else {
            None
        }
    } else if s.len() > 0 && all_digits(s) {
        Some(digits_value(s))
    } else {
        None
    }
}

/// `s.parse()` into an integer type whose range is `lo..=hi`.
pub open spec fn parsed_int(s: Seq<char>, lo: int, hi: int) -> Option<int> {
    match spelled_int(s) {
        Some(v) => if lo <= v <= hi {
            Some(v)
        } else {
            None
        },
        None => None,
    }
}

proof fn lemma_digits_value_grows(ds: Seq<char>, k: int)
    requires
        all_digits(ds),
        0 <= k <= ds.len(),
    ensures
        0 <= digits_value(ds.take(k)) <= digits_value(ds),
    decreases ds.len(),
{
    if ds.len() > 0 {
        if k == ds.len() {
            assert(ds.take(k) =~= ds);
            lemma_digits_value_grows(ds.drop_last(), k - 1);
            assert(ds.drop_last().take(k - 1) =~= ds.drop_last());
        } else {
            lemma_digits_value_grows(ds.drop_last(), k);
            assert(ds.drop_last().take(k) =~= ds.take(k));
            lemma_digits_value_grows(ds.drop_last(), ds.len() - 1);
            assert(ds.drop_last().take(ds.len() - 1) =~= ds.drop_last());
        }
    } else {
        assert(ds.take(k) =~= ds);
    }
}

/// Parses a signed integer whose value must lie in `lo..=hi`, as `str::parse`
/// does for the integer type of that range.
pub fn parse_int(s: &Vec<char>, lo: i64, hi: i64) -> (r: Option<i64>)
    requires
        lo <= 0 <= hi,
    ensures
        r == (match parsed_int(s@, lo as int, hi as int) {
            Some(v) => Some(v as i64),
            None => None,
        }),
{
    if s.len() == 0 {
        return None;
    }
    let signed = s[0] == '+' || s[0] == '-';
    let neg = s[0] == '-';
    let start: usize = if signed { 1 } else { 0 };
    let ghost ds = s@.skip(start as int);
    if start == s.len() {
        return None;
    }
    let bound: i128 = 0x8000_0000_0000_0000;
    let mut acc: i128 = 0;
    let mut k: usize = start;
    while k < s.len()
        invariant
            start <= k <= s@.len(),
            s@.len() > 0,
            signed == (s@[0] == '+' || s@[0] == '-'),
            neg == (s@[0] == '-'),
            start == (if signed { 1usize } else { 0usize }),
            ds == s@.skip(start as int),
            all_digits(ds.take(k - start)),
            acc == digits_value(ds.take(k - start)),
            0 <= acc <= bound,
            bound == 0x8000_0000_0000_0000,
        decreases s@.len() - k,
    {
        let c = s[k];
        if !('0' <= c && c <= '9') {
            assert(ds[k - start] == c);
            assert(!all_digits(ds));
            assert(spelled_int(s@) is None) by {
                if !signed {
                    assert(ds =~= s@);
                } else {
                    assert(ds =~= s@.drop_first());
                }
            }
            return None;
        }
        let d: i128 = (c as u32 - 48) as i128;
        assert(ds.take(k + 1 - start).drop_last() =~= ds.take(k - start));
        acc = acc * 10 + d;
        assert(all_digits(ds.take(k + 1 - start)));
        k = k + 1;
        if acc > bound {
            proof {
                assert(ds.take(k - start) =~= s@.subrange(start as int, k as int));
            }
            let ghost pre = acc;
            let mut m: usize = k;
            while m < s.len()
                invariant
                    start <= k <= m <= s@.len(),
                    s@.len() > 0,
                    signed == (s@[0] == '+' || s@[0] == '-'),
                    neg == (s@[0] == '-'),
                    start == (if signed { 1usize } else { 0usize }),
                    ds == s@.skip(start as int),
                    all_digits(ds.take(m - start)),
                    pre <= digits_value(ds.take(m - start)),
                    pre == digits_value(ds.take(k - start)),
                decreases s@.len() - m,
            {
                if !('0' <= s[m] && s[m] <= '9') {
                    assert(ds[m - start] == s@[m as int]);
                    assert(spelled_int(s@) is None) by {
                        if !signed {
                            assert(ds =~= s@);
                        } else {
                            assert(ds =~= s@.drop_first());
                        }
                    }
                    return None;
                }
                proof {
                    assert(all_digits(ds.take(m + 1 - start)));
                    lemma_digits_value_grows(ds.take(m + 1 - start), m - start);
                    assert(ds.take(m + 1 - start).take(m - start) =~= ds.take(m - start));
                }
                m = m + 1;
            }
            proof {
                assert(ds.take(m - start) =~= ds);
                if !signed {
                    assert(ds =~= s@);
                } else {
                    assert(ds =~= s@.drop_first());
                }
            }
            return None;
        }
    }
    proof {
        assert(ds.take(k - start) =~= ds);
        if !signed {
            assert(ds =~= s@);
        } else {
            assert(ds =~= s@.drop_first());
        }
    }
    let v: i128 = if neg { -acc } else { acc };
    if v < lo as i128 || v > hi as i128 {
        return None;
    }
    Some(v as i64)
}


/// `PathBuf::push` on Unix, on paths that are text: an absolute `name`
/// replaces `dir`; otherwise `name` is appended, after a `'/'` where `dir` is
/// not empty and does not already end in one.
pub open spec fn path_join(dir: Seq<char>, name: Seq<char>) -> Seq<char> {
    if name.len() > 0 && name[0] == '/' {
        name
    } else if dir.len() == 0 || dir.last() == '/' {
        dir + name
    } else {
        dir + seq!['/'] + name
    }
}

/// `dir` with `name` pushed onto it as a path.
pub fn join_path(dir: &str, name: &str) -> (r: String)
    ensures
        r@ == path_join(dir@, name@),
{
    let d = chars_of(dir);
    let mut n = chars_of(name);
    if n.len() > 0 && n[0] == '/' {
        return string_of(&n);
    }
    let mut out = d;
    if out.len() > 0 && out[out.len() - 1] != '/' {
        out.push('/');
    }
    let ghost mid = out@;
    out.append(&mut n);
    let r = string_of(&out);
    assert(r@ =~= path_join(dir@, name@));
    r
}

/// The concatenation of two strings.
pub fn concat_str(a: &str, b: &str) -> (r: String)
    ensures
        r@ == a@ + b@,
{
    let mut cs = chars_of(a);
    let mut bs = chars_of(b);
    cs.append(&mut bs);
    string_of(&cs)
}

} // verus!
