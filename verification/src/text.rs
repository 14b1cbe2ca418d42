//! Text as sequences of characters: trimming, numbers, case and order.

use vstd::prelude::*;

verus! {

/// `String::push` of std: appends one character.
pub assume_specification[ String::push ](s: &mut String, c: char)
    ensures
        final(s)@ == old(s)@.push(c),
;

/// The characters of a string, in order.
pub fn chars_of(s: &str) -> (r: Vec<char>)
    ensures
        r@ == s@,
{
    let mut out: Vec<char> = Vec::new();
    for c in it: s.chars()
        invariant
            it.seq() == s@,
            out@ == s@.take(it.index()),
    {
        assert(s@.take(it.index() + 1) =~= s@.take(it.index()).push(c));
        out.push(c);
    }
    assert(s@.take(s@.len() as int) =~= s@);
    out
}

/// The string made of `cs`.
pub fn string_of(cs: &[char]) -> (r: String)
    ensures
        r@ == cs@,
{
    let mut out = String::new();
    let mut i: usize = 0;
    while i < cs.len()
        invariant
            i <= cs.len(),
            out@ == cs@.take(i as int),
        decreases cs.len() - i,
    {
        assert(cs@.take(i + 1) =~= cs@.take(i as int).push(cs@[i as int]));
        out.push(cs[i]);
        i += 1;
    }
    assert(cs@.take(cs@.len() as int) =~= cs@);
    out
}

/// A copy of `s`.
pub fn copy_of(s: &str) -> (r: String)
    ensures
        r@ == s@,
{
    string_of(&chars_of(s))
}

/// `a` followed by `b`.
pub fn joined(a: &str, b: &str) -> (r: String)
    ensures
        r@ == a@ + b@,
{
    let mut out = copy_of(a);
    out.append(b);
    out
}

/// Whether two strings hold the same characters.
pub fn str_eq(a: &str, b: &str) -> (r: bool)
    ensures
        r == (a@ == b@),
{
    let x = chars_of(a);
    let y = chars_of(b);
    chars_eq(&x, &y)
}

/// Whether two character slices are the same.
pub fn chars_eq(x: &[char], y: &[char]) -> (r: bool)
    ensures
        r == (x@ == y@),
{
    if x.len() != y.len() {
        return false;
    }
    let mut i: usize = 0;
    while i < x.len()
        invariant
            i <= x.len(),
            x.len() == y.len(),
            forall|k: int| 0 <= k < i ==> x[k] == y[k],
        decreases x.len() - i,
    {
        if x[i] != y[i] {
            return false;
        }
        i += 1;
    }
    assert(x@ =~= y@);
    true
}

/// Whether `s` begins with `p`.
pub open spec fn has_prefix(s: Seq<char>, p: Seq<char>) -> bool {
    p.len() <= s.len() && s.take(p.len() as int) == p
}

/// Whether `s` begins with `p`.
pub fn starts_with(s: &str, p: &str) -> (r: bool)
    ensures
        r == has_prefix(s@, p@),
{
    let x = chars_of(s);
    let y = chars_of(p);
    if y.len() > x.len() {
        return false;
    }
    let head = vstd::slice::slice_subrange(x.as_slice(), 0, y.len());
    assert(head@ =~= s@.take(p@.len() as int));
    chars_eq(head, &y)
}

/// Unicode's `White_Space` property.
pub open spec fn is_ws(c: char) -> bool {
    ||| '\u{9}' <= c <= '\u{d}'
    ||| c == ' '
    ||| c == '\u{85}'
    ||| c == '\u{a0}'
    ||| c == '\u{1680}'
    ||| '\u{2000}' <= c <= '\u{200a}'
    ||| c == '\u{2028}'
    ||| c == '\u{2029}'
    ||| c == '\u{202f}'
    ||| c == '\u{205f}'
    ||| c == '\u{3000}'
}

/// Whether `c` is white space.
pub fn is_whitespace(c: char) -> (r: bool)
    ensures
        r == is_ws(c),
{
    ('\u{9}' <= c && c <= '\u{d}') || c == ' ' || c == '\u{85}' || c == '\u{a0}' || c == '\u{1680}'
        || ('\u{2000}' <= c && c <= '\u{200a}') || c == '\u{2028}' || c == '\u{2029}' || c
        == '\u{202f}' || c == '\u{205f}' || c == '\u{3000}'
}

/// `s` without leading white space.
pub open spec fn trim_start(s: Seq<char>) -> Seq<char>
    decreases s.len(),
{
    if s.len() > 0 && is_ws(s[0]) {
        trim_start(s.drop_first())
    } else {
        s
    }
}

/// `s` without trailing white space.
pub open spec fn trim_end(s: Seq<char>) -> Seq<char>
    decreases s.len(),
{
    if s.len() > 0 && is_ws(s.last()) {
        trim_end(s.drop_last())
    } else {
        s
    }
}

/// `s` without white space at either end.
pub open spec fn trimmed(s: Seq<char>) -> Seq<char> {
    trim_end(trim_start(s))
}

/// The characters of `s` without white space at either end.
pub fn trim(s: &[char]) -> (r: Vec<char>)
    ensures
        r@ == trimmed(s@),
{
    let mut lo: usize = 0;
    assert(s@.skip(0) =~= s@);
    while lo < s.len() && is_whitespace(s[lo])
        invariant
            lo <= s.len(),
            trim_start(s@) == trim_start(s@.skip(lo as int)),
        decreases s.len() - lo,
    {
        assert(s@.skip(lo as int).drop_first() =~= s@.skip(lo + 1));
        lo += 1;
    }
    let mut hi: usize = s.len();
    let ghost t = trim_start(s@);
    assert(t == s@.skip(lo as int));
    assert(s@.subrange(lo as int, hi as int) =~= t);
    while hi > lo && is_whitespace(s[hi - 1])
        invariant
            lo <= hi <= s.len(),
            trim_end(t) == trim_end(s@.subrange(lo as int, hi as int)),
        decreases hi,
    {
        assert(s@.subrange(lo as int, hi as int).drop_last() =~= s@.subrange(
            lo as int,
            hi - 1,
        ));
        hi -= 1;
    }
    let part = vstd::slice::slice_subrange(s, lo, hi);
    let mut out: Vec<char> = Vec::new();
    out.extend_from_slice(part);
    assert(out@ =~= part@);
    out
}

pub open spec fn is_digit(c: char) -> bool {
    '0' <= c <= '9'
}

pub open spec fn all_digits(s: Seq<char>) -> bool {
    forall|i: int| 0 <= i < s.len() ==> is_digit(#[trigger] s[i])
}

/// The number that a run of decimal digits stands for.
pub open spec fn digits_value(s: Seq<char>) -> int
    decreases s.len(),
{
    if s.len() == 0 {
        0
    } else {
        digits_value(s.drop_last()) * 10 + (s.last() as int - '0' as int)
    }
}

/// A decimal number with an optional sign: `None` where `s` is not one.
pub open spec fn int_value(s: Seq<char>) -> Option<int> {
    let signed = s.len() > 0 && (s[0] == '-' || s[0] == '+');
    let body = if signed {
        s.drop_first()
    } else {
        s
    };
    if body.len() == 0 || !all_digits(body) {
        None
    } else if signed && s[0] == '-' {
        Some(-digits_value(body))
    } else {
        Some(digits_value(body))
    }
}

/// Digits stand for a number that is not negative.
pub proof fn lemma_digits_nonneg(s: Seq<char>)
    requires
        all_digits(s),
    ensures
        digits_value(s) >= 0,
    decreases s.len(),
{
    if s.len() > 0 {
        assert(is_digit(s[s.len() - 1]));
        assert forall|i: int| 0 <= i < s.drop_last().len() implies is_digit(
            #[trigger] s.drop_last()[i],
        ) by {
            assert(is_digit(s[i]));
        }
        lemma_digits_nonneg(s.drop_last());
    }
}

proof fn lemma_digits_grow(s: Seq<char>, k: int)
    requires
        all_digits(s),
        0 <= k <= s.len(),
    ensures
        0 <= digits_value(s.take(k)) <= digits_value(s),
    decreases s.len(),
{
    if k == s.len() {
        assert(s.take(k) =~= s);
        lemma_digits_nonneg(s);
    } else {
        let d = s.drop_last();
        assert forall|i: int| 0 <= i < d.len() implies is_digit(#[trigger] d[i]) by {
            assert(is_digit(s[i]));
        }
        assert(is_digit(s[s.len() - 1]));
        assert(d.take(k) =~= s.take(k));
        lemma_digits_grow(d, k);
    }
}

/// The value of `s` from index `from` on, read as decimal digits, if it is
/// at most `max`.
fn parse_digits(s: &[char], from: usize, max: u64) -> (r: Option<u64>)
    requires
        from <= s.len(),
        max <= 0x8000_0000_0000_0000,
    ensures
        ({
            let body = s@.skip(from as int);
            r == (if body.len() > 0 && all_digits(body) && digits_value(body) <= max {
                Some(digits_value(body) as u64)
            } else {
                None
            })
        }),
{
    let ghost body = s@.skip(from as int);
    if from == s.len() {
        return None;
    }
    let mut i: usize = from;
    let mut acc: u64 = 0;
    while i < s.len()
        invariant
            from <= i <= s.len(),
            max <= 0x8000_0000_0000_0000,
            body == s@.skip(from as int),
            forall|k: int| 0 <= k < i - from ==> is_digit(body[k]),
            acc == digits_value(body.take(i - from)),
            acc <= max,
        decreases s.len() - i,
    {
        let c = s[i];
        assert(c == body[i - from]);
        if !('0' <= c && c <= '9') {
            return None;
        }
        let d: u64 = (c as u32 - '0' as u32) as u64;
        assert(body.take(i + 1 - from).drop_last() =~= body.take(i - from));
        assert(digits_value(body.take(i + 1 - from)) == acc * 10 + d);
        if d > max || acc > (max - d) / 10 {
            proof {
                if all_digits(body) {
                    lemma_digits_grow(body, i + 1 - from);
                }
            }
            return None;
        }
        acc = acc * 10 + d;
        i += 1;
    }
    assert(body.take(i - from) =~= body);
    Some(acc)
}

/// Reads `s` as a signed decimal number that fits in an `i64`.
pub fn parse_i64(s: &[char]) -> (r: Option<i64>)
    ensures
        r == (match int_value(s@) {
            Some(v) if i64::MIN <= v <= i64::MAX => Some(v as i64),
            _ => None,
        }),
{
    if s.len() == 0 {
        return None;
    }
    let neg = s[0] == '-';
    let signed = neg || s[0] == '+';
    let from: usize = if signed {
        1
    } else {
        0
    };
    assert(s@.skip(0) =~= s@);
    assert(s@.skip(1) =~= s@.drop_first());
    let max: u64 = if neg {
        0x8000_0000_0000_0000
    } else {
        0x7fff_ffff_ffff_ffff
    };
    proof {
        if all_digits(s@.skip(from as int)) {
            lemma_digits_nonneg(s@.skip(from as int));
        }
    }
    match parse_digits(s, from, max) {
        None => None,
        Some(v) => {
            if neg {
                if v == 0x8000_0000_0000_0000 {
                    Some(i64::MIN)
                } else {
                    Some(-(v as i64))
                }
            } else {
                Some(v as i64)
            }
        },
    }
}

/// Reads `s` as an unsigned decimal number (a leading `+` is allowed) that
/// fits in `max`.
pub fn parse_unsigned(s: &[char], max: u64) -> (r: Option<u64>)
    requires
        max <= 0x7fff_ffff_ffff_ffff,
    ensures
        r == (match unsigned_value(s@) {
            Some(v) if v <= max => Some(v as u64),
            _ => None,
        }),
{
    if s.len() == 0 {
        return None;
    }
    assert(s@.skip(0) =~= s@);
    assert(s@.skip(1) =~= s@.drop_first());
    let from: usize = if s[0] == '+' {
        1
    } else {
        0
    };
    parse_digits(s, from, max)
}

/// A decimal number with an optional `+`: `None` where `s` is not one.
pub open spec fn unsigned_value(s: Seq<char>) -> Option<int> {
    let body = if s.len() > 0 && s[0] == '+' {
        s.drop_first()
    } else {
        s
    };
    if body.len() == 0 || !all_digits(body) {
        None
    } else {
        Some(digits_value(body))
    }
}

/// The digit of value `d` in bases up to 16.
pub open spec fn digit_char(d: int) -> char {
    if d < 10 {
        ('0' as int + d) as char
    } else {
        ('a' as int + (d - 10)) as char
    }
}

/// `n` written in base `base`, without leading zeros.
pub open spec fn in_base(n: int, base: int) -> Seq<char>
    decreases n,
{
    if n < base || base < 2 {
        seq![digit_char(n)]
    } else {
        proof {
            assert(0 <= n / base < n) by (nonlinear_arith)
                requires
                    n >= base,
                    base >= 2,
            ;
        }
        in_base(n / base, base).push(digit_char(n % base))
    }
}

/// `n` in decimal.
pub open spec fn decimal(n: int) -> Seq<char> {
    in_base(n, 10)
}

/// `n` in hexadecimal, lower case.
pub open spec fn hexadecimal(n: int) -> Seq<char> {
    in_base(n, 16)
}

fn digit_of(d: u64) -> (r: char)
    requires
        d < 16,
    ensures
        r == digit_char(d as int),
{
    let c: u8 = if d < 10 {
        48 + d as u8
    } else {
        97 + (d as u8 - 10)
    };
    c as char
}

/// `n` written in base 10 or 16, without leading zeros.
pub fn digits(n: u64, base: u64) -> (r: Vec<char>)
    requires
        base == 10 || base == 16,
    ensures
        r@ == in_base(n as int, base as int),
    decreases n,
{
    if n < base {
        let mut out: Vec<char> = Vec::new();
        out.push(digit_of(n));
        assert(out@ =~= seq![digit_char(n as int)]);
        out
    } else {
        let mut out = digits(n / base, base);
        out.push(digit_of(n % base));
        out
    }
}

/// Appends `n` in decimal.
pub fn push_decimal(s: &mut String, n: u64)
    ensures
        final(s)@ == old(s)@ + decimal(n as int),
{
    let d = string_of(&digits(n, 10));
    s.append(d.as_str());
}

/// Appends `n` in hexadecimal.
pub fn push_hex(s: &mut String, n: u64)
    ensures
        final(s)@ == old(s)@ + hexadecimal(n as int),
{
    let d = string_of(&digits(n, 16));
    s.append(d.as_str());
}

/// ASCII letters in lower case, everything else unchanged.
pub open spec fn lower_char(c: char) -> char {
    if 'A' <= c <= 'Z' {
        (c as int + 32) as char
    } else {
        c
    }
}

/// `s` with its ASCII letters in lower case.
pub open spec fn lower(s: Seq<char>) -> Seq<char> {
    Seq::new(s.len(), |i: int| lower_char(s[i]))
}

/// `s` with its ASCII letters in lower case.
pub fn to_lower(s: &str) -> (r: String)
    ensures
        r@ == lower(s@),
{
    let cs = chars_of(s);
    let mut out: Vec<char> = Vec::new();
    let mut i: usize = 0;
    while i < cs.len()
        invariant
            i <= cs.len(),
            cs@ == s@,
            out@ == lower(s@).take(i as int),
        decreases cs.len() - i,
    {
        let c = cs[i];
        let l: char = if 'A' <= c && c <= 'Z' {
            (c as u8 + 32) as char
        } else {
            c
        };
        assert(l == lower_char(c));
        out.push(l);
        assert(out@ =~= lower(s@).take(i + 1));
        i += 1;
    }
    assert(out@ =~= lower(s@));
    string_of(&out)
}

/// Order of strings: character by character, a prefix first.
pub open spec fn str_lt(a: Seq<char>, b: Seq<char>) -> bool
    decreases a.len(),
{
    if b.len() == 0 {
        false
    } else if a.len() == 0 {
        true
    } else if a[0] != b[0] {
        a[0] < b[0]
    } else {
        str_lt(a.drop_first(), b.drop_first())
    }
}

/// Whether `a` comes before `b`.
pub fn comes_before(a: &str, b: &str) -> (r: bool)
    ensures
        r == str_lt(a@, b@),
{
    let x = chars_of(a);
    let y = chars_of(b);
    let mut i: usize = 0;
    assert(x@.skip(0) =~= x@ && y@.skip(0) =~= y@);
    while i < x.len() && i < y.len()
        invariant
            i <= x.len(),
            i <= y.len(),
            x@ == a@,
            y@ == b@,
            str_lt(x@, y@) == str_lt(x@.skip(i as int), y@.skip(i as int)),
        decreases x.len() - i,
    {
        if x[i] != y[i] {
            return x[i] < y[i];
        }
        assert(x@.skip(i as int).drop_first() =~= x@.skip(i + 1));
        assert(y@.skip(i as int).drop_first() =~= y@.skip(i + 1));
        i += 1;
    }
    i < y.len()
}

/// The value of a digit character in bases up to 16.
pub open spec fn char_digit(c: char) -> int {
    if c <= '9' {
        c as int - '0' as int
    } else {
        c as int - 'a' as int + 10
    }
}

/// The number that the digits `s` stand for in the given base.
pub open spec fn base_value(s: Seq<char>, base: int) -> int
    decreases s.len(),
{
    if s.len() == 0 {
        0
    } else {
        base_value(s.drop_last(), base) * base + char_digit(s.last())
    }
}

/// A number is read back from its digits.
pub proof fn digits_read_back(n: int, base: int)
    requires
        0 <= n,
        2 <= base <= 16,
    ensures
        base_value(in_base(n, base), base) == n,
        in_base(n, base).len() > 0,
        forall|i: int|
            0 <= i < in_base(n, base).len() ==> is_digit(#[trigger] in_base(n, base)[i])
                || 'a' <= in_base(n, base)[i] <= 'f',
    decreases n,
{
    let s = in_base(n, base);
    if n < base {
        assert(s.drop_last() =~= Seq::<char>::empty());
        assert(base_value(s.drop_last(), base) == 0);
    } else {
        assert(0 <= n / base < n && 0 <= n % base < base && n == (n / base) * base + n % base)
            by (nonlinear_arith)
            requires
                n >= base,
                base >= 2,
        ;
        digits_read_back(n / base, base);
        assert(s.drop_last() =~= in_base(n / base, base));
        assert forall|i: int| 0 <= i < s.len() implies is_digit(#[trigger] s[i]) || 'a' <= s[i]
            <= 'f' by {
            if i < s.len() - 1 {
                assert(s[i] == in_base(n / base, base)[i]);
            }
        }
    }
}

/// Zeros in front of digits do not change their value.
pub proof fn lemma_leading_zeros(s: Seq<char>, zeros: nat, base: int)
    ensures
        base_value(Seq::new(zeros, |i: int| '0') + s, base) == base_value(s, base),
    decreases s.len(), zeros,
{
    let z = Seq::new(zeros, |i: int| '0');
    if s.len() == 0 {
        assert(z + s =~= z);
        if zeros > 0 {
            let y = Seq::new((zeros - 1) as nat, |i: int| '0');
            assert(z.drop_last() =~= y);
            lemma_leading_zeros(s, (zeros - 1) as nat, base);
            assert(y + s =~= y);
            assert(base_value(z, base) == 0) by (nonlinear_arith)
                requires
                    base_value(z, base) == base_value(y, base) * base + 0,
                    base_value(y, base) == 0,
            ;
        }
    } else {
        assert((z + s).drop_last() =~= z + s.drop_last());
        lemma_leading_zeros(s.drop_last(), zeros, base);
    }
}

/// `s` with zeros in front, up to the given width.
pub open spec fn zero_padded(s: Seq<char>, width: int) -> Seq<char> {
    if s.len() >= width {
        s
    } else {
        Seq::new((width - s.len()) as nat, |i: int| '0') + s
    }
}

/// Appends `n` in hexadecimal with zeros in front, up to the given width.
pub fn push_hex_padded(s: &mut String, n: u64, width: usize)
    ensures
        final(s)@ == old(s)@ + zero_padded(hexadecimal(n as int), width as int),
{
    let d = digits(n, 16);
    let ghost s0 = s@;
    let mut k: usize = d.len();
    let ghost mut z = Seq::<char>::empty();
    assert(s@ =~= s0 + z);
    assert(z =~= Seq::new(0, |i: int| '0'));
    while k < width
        invariant
            d@.len() <= k,
            k <= width || k == d@.len(),
            s@ == s0 + z,
            z == Seq::new((k - d@.len()) as nat, |i: int| '0'),
        decreases width - k,
    {
        s.push('0');
        proof {
            assert(s@ =~= s0 + z.push('0'));
            z = z.push('0');
            assert(z =~= Seq::new((k + 1 - d@.len()) as nat, |i: int| '0'));
        }
        k += 1;
    }
    let t = string_of(&d);
    s.append(t.as_str());
    assert(s@ =~= s0 + zero_padded(hexadecimal(n as int), width as int));
}

/// The order of strings is strict and total.
pub proof fn strings_are_ordered(a: Seq<char>, b: Seq<char>, c: Seq<char>)
    ensures
        !str_lt(a, a),
        str_lt(a, b) && str_lt(b, c) ==> str_lt(a, c),
        str_lt(a, b) || str_lt(b, a) || a == b,
        str_lt(a, b) ==> !str_lt(b, a),
    decreases a.len() + b.len() + c.len(),
{
    if a.len() == 0 && b.len() == 0 {
        assert(a =~= b);
    }
    if a.len() > 0 && b.len() > 0 {
        let rest = if c.len() > 0 {
            c.drop_first()
        } else {
            c
        };
        strings_are_ordered(a.drop_first(), b.drop_first(), rest);
        if a[0] == b[0] && a.drop_first() == b.drop_first() {
            assert(a =~= seq![a[0]] + a.drop_first());
            assert(b =~= seq![b[0]] + b.drop_first());
        }
    } else if a.len() > 0 {
        strings_are_ordered(a.drop_first(), b, b);
    }
}

/// The parts of `s` between the `sep`s in it.
pub open spec fn split(s: Seq<char>, sep: char) -> Seq<Seq<char>>
    decreases s.len(),
{
    if s.len() == 0 {
        seq![s]
    } else {
        let rest = split(s.drop_last(), sep);
        if s.last() == sep {
            rest.push(Seq::empty())
        } else {
            rest.update(rest.len() - 1, rest.last().push(s.last()))
        }
    }
}

/// The character sequences of a list of texts.
pub open spec fn char_views(v: Seq<Vec<char>>) -> Seq<Seq<char>> {
    Seq::new(v.len(), |i: int| v[i]@)
}

/// The parts of `s` between the `sep`s in it.
pub fn split_at(s: &[char], sep: char) -> (r: Vec<Vec<char>>)
    ensures
        char_views(r@) == split(s@, sep),
        r@.len() > 0,
{
    let n: usize = s.len();
    let mut done: Vec<Vec<char>> = Vec::new();
    let mut part: Vec<char> = Vec::new();
    let mut i: usize = 0;
    assert(s@.take(0) =~= Seq::<char>::empty());
    assert(char_views(done@).push(part@) =~= split(s@.take(0), sep));
    while i < n
        invariant
            i <= n == s@.len(),
            char_views(done@).push(part@) == split(s@.take(i as int), sep),
        decreases n - i,
    {
        let ghost before = char_views(done@).push(part@);
        assert(s@.take(i + 1).drop_last() =~= s@.take(i as int));
        if s[i] == sep {
            let ghost shown = char_views(done@);
            let ghost closed = part@;
            done.push(part);
            part = Vec::new();
            assert(char_views(done@) =~= shown.push(closed));
            assert(char_views(done@).push(part@) =~= before.push(Seq::empty()));
        } else {
            part.push(s[i]);
            assert(char_views(done@).push(part@) =~= before.update(
                before.len() - 1,
                before.last().push(s@[i as int]),
            ));
        }
        i += 1;
    }
    let ghost shown = char_views(done@);
    let ghost closed = part@;
    done.push(part);
    assert(char_views(done@) =~= shown.push(closed));
    assert(s@.take(n as int) =~= s@);
    done
}

/// `s` without a carriage return at its end.
pub open spec fn without_return(s: Seq<char>) -> Seq<char> {
    if s.len() > 0 && s.last() == '\r' {
        s.drop_last()
    } else {
        s
    }
}

/// The lines of a text: each ends with a line feed, with or without a carriage
/// return before it, which the last may lack.
pub open spec fn text_lines(s: Seq<char>) -> Seq<Seq<char>> {
    let parts = split(s, '\n');
    let closed = Seq::new((parts.len() - 1) as nat, |i: int| without_return(parts[i]));
    if parts.last().len() == 0 {
        closed
    } else {
        closed.push(parts.last())
    }
}

/// The lines of a text.
pub fn lines(s: &[char]) -> (r: Vec<Vec<char>>)
    ensures
        char_views(r@) == text_lines(s@),
{
    let mut parts = split_at(s, '\n');
    let n: usize = parts.len();
    let ghost all = char_views(parts@);
    let last = parts.pop().unwrap();
    let mut i: usize = 0;
    while i < n - 1
        invariant
            i <= n - 1,
            n - 1 == parts@.len(),
            n == all.len(),
            forall|j: int| 0 <= j < i ==> (#[trigger] parts@[j])@ == without_return(all[j]),
            forall|j: int| i <= j < n - 1 ==> (#[trigger] parts@[j])@ == all[j],
        decreases n - i,
    {
        let len: usize = parts[i].len();
        if len > 0 && parts[i][len - 1] == '\r' {
            let mut line: Vec<char> = Vec::new();
            let mut k: usize = 0;
            while k < len - 1
                invariant
                    k <= len - 1,
                    i < parts@.len(),
                    len == parts@[i as int]@.len(),
                    line@ == parts@[i as int]@.take(k as int),
                decreases len - k,
            {
                line.push(parts[i][k]);
                k += 1;
                assert(line@ =~= parts@[i as int]@.take(k as int));
            }
            assert(line@ =~= parts@[i as int]@.drop_last());
            parts.set(i, line);
        }
        i += 1;
    }
    let ghost closed = Seq::new((n - 1) as nat, |j: int| without_return(all[j]));
    assert(char_views(parts@) =~= closed);
    if last.len() > 0 {
        let ghost l = last@;
        parts.push(last);
        assert(char_views(parts@) =~= closed.push(l));
    }
    parts
}

/// Whether `a` has the smaller character where the two first differ, or ends
/// there.
pub open spec fn spelled_before(a: Seq<char>, b: Seq<char>) -> bool {
    exists|k: int|
        0 <= k <= a.len() && k < b.len() && #[trigger] a.take(k) == b.take(k) && (k == a.len()
            || a[k] < b[k])
}

/// Of two strings the one with the smaller character comes first, where they
/// first differ, or the one that ends there.
pub proof fn first_difference_decides(a: Seq<char>, b: Seq<char>)
    ensures
        str_lt(a, b) <==> spelled_before(a, b),
    decreases a.len(),
{
    if a.len() == 0 {
        assert(a.take(0) =~= b.take(0));
    } else if b.len() > 0 {
        let (x, y) = (a.drop_first(), b.drop_first());
        first_difference_decides(x, y);
        if a[0] != b[0] {
            assert(a.take(0) =~= b.take(0));
            if spelled_before(a, b) {
                let k = choose|k: int|
                    0 <= k <= a.len() && k < b.len() && #[trigger] a.take(k) == b.take(k) && (k
                        == a.len() || a[k] < b[k]);
                if k > 0 {
                    assert(a.take(k)[0] == a[0] && b.take(k)[0] == b[0]);
                }
            }
        } else {
            if str_lt(x, y) {
                let k = choose|k: int|
                    0 <= k <= x.len() && k < y.len() && #[trigger] x.take(k) == y.take(k) && (k
                        == x.len() || x[k] < y[k]);
                assert(a.take(k + 1) =~= seq![a[0]] + x.take(k));
                assert(b.take(k + 1) =~= seq![b[0]] + y.take(k));
                assert(a.take(k + 1) == b.take(k + 1));
            }
            if spelled_before(a, b) {
                let k = choose|k: int|
                    0 <= k <= a.len() && k < b.len() && #[trigger] a.take(k) == b.take(k) && (k
                        == a.len() || a[k] < b[k]);
                assert(k > 0);
                assert(x.take(k - 1) =~= a.take(k).drop_first());
                assert(y.take(k - 1) =~= b.take(k).drop_first());
                assert(x.take(k - 1) == y.take(k - 1));
            }
        }
    }
}

/// Whether two characters are the same but for the case of an ASCII letter.
pub open spec fn same_letter(a: char, b: char) -> bool {
    ||| a == b
    ||| 'A' <= a <= 'Z' && b as int == a as int + 32
    ||| 'A' <= b <= 'Z' && a as int == b as int + 32
}

/// Strings are the same in lower case exactly where they differ in the case of
/// ASCII letters at most; and what is in lower case has no ASCII capital.
pub proof fn case_is_all_that_is_lost(a: Seq<char>, b: Seq<char>)
    ensures
        lower(a) == lower(b) <==> a.len() == b.len() && forall|i: int|
            0 <= i < a.len() ==> same_letter(#[trigger] a[i], b[i]),
        forall|i: int| 0 <= i < a.len() ==> !('A' <= #[trigger] lower(a)[i] <= 'Z'),
        forall|i: int| 0 <= i < a.len() ==> same_letter(#[trigger] lower(a)[i], a[i]),
{
    if lower(a) == lower(b) {
        assert(lower(a).len() == a.len() && lower(b).len() == b.len());
        assert forall|i: int| 0 <= i < a.len() implies same_letter(#[trigger] a[i], b[i]) by {
            assert(lower(a)[i] == lower_char(a[i]) && lower(b)[i] == lower_char(b[i]));
            lemma_lower_char(a[i]);
            lemma_lower_char(b[i]);
        }
    }
    if a.len() == b.len() && forall|i: int|
        0 <= i < a.len() ==> same_letter(#[trigger] a[i], b[i]) {
        assert forall|i: int| 0 <= i < a.len() implies lower(a)[i] == lower(b)[i] by {
            assert(same_letter(a[i], b[i]));
            lemma_lower_char(a[i]);
            lemma_lower_char(b[i]);
        }
        assert(lower(a) =~= lower(b));
    }
    assert forall|i: int| 0 <= i < a.len() implies !('A' <= #[trigger] lower(a)[i] <= 'Z')
        && same_letter(lower(a)[i], a[i]) by {
        lemma_lower_char(a[i]);
    }
}

proof fn lemma_lower_char(c: char)
    ensures
        lower_char(c) as int == (if 'A' <= c <= 'Z' {
            c as int + 32
        } else {
            c as int
        }),
{
}

/// Trimming takes the white space away at either end, all of it and nothing
/// else.
pub proof fn trimming_takes_the_ends_away(a: Seq<char>, s: Seq<char>, b: Seq<char>)
    requires
        forall|i: int| 0 <= i < a.len() ==> is_ws(#[trigger] a[i]),
        forall|i: int| 0 <= i < b.len() ==> is_ws(#[trigger] b[i]),
        s.len() > 0 ==> !is_ws(s[0]) && !is_ws(s.last()),
    ensures
        trimmed(a + s + b) == s,
{
    if s.len() > 0 {
        lemma_trim_start(a, s + b);
        assert(a + (s + b) =~= a + s + b);
        lemma_trim_end(s, b);
    } else {
        let t = a + s + b;
        assert forall|i: int| 0 <= i < t.len() implies is_ws(#[trigger] t[i]) by {
            if i < a.len() {
                assert(t[i] == a[i]);
            } else {
                assert(t[i] == b[i - a.len()]);
            }
        }
        lemma_trim_start(t, s);
        assert(t + s =~= t);
        assert(trim_end(s) == s);
    }
}

proof fn lemma_trim_start(a: Seq<char>, s: Seq<char>)
    requires
        forall|i: int| 0 <= i < a.len() ==> is_ws(#[trigger] a[i]),
        s.len() > 0 ==> !is_ws(s[0]),
    ensures
        trim_start(a + s) == s,
    decreases a.len(),
{
    if a.len() > 0 {
        assert((a + s)[0] == a[0]);
        let tail = a.drop_first();
        assert forall|i: int| 0 <= i < tail.len() implies is_ws(#[trigger] tail[i]) by {
            assert(tail[i] == a[i + 1]);
        }
        assert((a + s).drop_first() =~= tail + s);
        lemma_trim_start(tail, s);
    } else {
        assert(a + s =~= s);
    }
}

proof fn lemma_trim_end(s: Seq<char>, b: Seq<char>)
    requires
        forall|i: int| 0 <= i < b.len() ==> is_ws(#[trigger] b[i]),
        s.len() > 0 ==> !is_ws(s.last()),
    ensures
        trim_end(s + b) == s,
    decreases b.len(),
{
    if b.len() > 0 {
        assert((s + b).last() == b[b.len() - 1]);
        let init = b.drop_last();
        assert forall|i: int| 0 <= i < init.len() implies is_ws(#[trigger] init[i]) by {
            assert(init[i] == b[i]);
        }
        assert((s + b).drop_last() =~= s + init);
        lemma_trim_end(s, init);
    } else {
        assert(s + b =~= s);
    }
}

/// Of the ASCII characters, white space are the blank and the five controls
/// from tab to carriage return; no letter, digit or sign is.
pub proof fn blanks_are_white_space(c: char)
    requires
        c < '\u{80}',
    ensures
        is_ws(c) <==> c == ' ' || c == '\t' || c == '\n' || c == '\u{b}' || c == '\u{c}' || c
            == '\r',
{
}

/// Text without a separator is one part, and a separator divides the parts on
/// its left from those on its right.
pub proof fn separators_divide_text(a: Seq<char>, b: Seq<char>, sep: char)
    ensures
        split(a + seq![sep] + b, sep) == split(a, sep) + split(b, sep),
        !a.contains(sep) ==> split(a, sep) == seq![a],
    decreases a.len() + b.len(),
{
    lemma_whole(a, sep);
    let s = a + seq![sep] + b;
    lemma_parts(a, sep);
    if b.len() == 0 {
        assert(s.drop_last() =~= a);
        assert(b =~= Seq::<char>::empty());
        assert(split(b, sep) =~= seq![Seq::<char>::empty()]);
        assert(split(a, sep).push(Seq::empty()) =~= split(a, sep) + split(b, sep));
    } else {
        let init = b.drop_last();
        separators_divide_text(a, init, sep);
        assert(s.drop_last() =~= a + seq![sep] + init);
        assert(s.last() == b.last());
        lemma_parts(init, sep);
        let (l, r) = (split(a, sep), split(init, sep));
        if b.last() == sep {
            assert((l + r).push(Seq::empty()) =~= l + r.push(Seq::empty()));
        } else {
            assert((l + r).last() == r.last());
            assert((l + r).update((l + r).len() - 1, r.last().push(b.last())) =~= l + r.update(
                r.len() - 1,
                r.last().push(b.last()),
            ));
        }
    }
}

proof fn lemma_parts(s: Seq<char>, sep: char)
    ensures
        split(s, sep).len() > 0,
    decreases s.len(),
{
    if s.len() > 0 {
        lemma_parts(s.drop_last(), sep);
    }
}

proof fn lemma_whole(a: Seq<char>, sep: char)
    ensures
        !a.contains(sep) ==> split(a, sep) == seq![a],
    decreases a.len(),
{
    if a.len() > 0 && !a.contains(sep) {
        let init = a.drop_last();
        assert(a[a.len() - 1] != sep);
        assert(!init.contains(sep)) by {
            if init.contains(sep) {
                let i = choose|i: int| 0 <= i < init.len() && init[i] == sep;
                assert(a[i] == sep);
            }
        }
        lemma_whole(init, sep);
        assert(split(a, sep) =~= seq![init.push(a.last())]);
        assert(init.push(a.last()) =~= a);
    } else if a.len() == 0 {
        assert(a =~= Seq::<char>::empty());
    }
}

/// A line ends at the first line feed, and loses a carriage return before it;
/// what stands after the last line feed is a line where there is something.
pub proof fn lines_end_at_line_feeds(a: Seq<char>, rest: Seq<char>)
    requires
        !a.contains('\n'),
    ensures
        text_lines(a + seq!['\n'] + rest) == seq![
            if a.len() > 0 && a.last() == '\r' {
                a.drop_last()
            } else {
                a
            },
        ] + text_lines(rest),
        a.len() > 0 ==> text_lines(a) == seq![a],
        a.len() == 0 ==> text_lines(a).len() == 0,
{
    separators_divide_text(a, rest, '\n');
    lemma_parts(rest, '\n');
    let s = a + seq!['\n'] + rest;
    let (all, tail) = (split(s, '\n'), split(rest, '\n'));
    assert(all == seq![a] + tail);
    assert(all.last() == tail.last());
    let closed = Seq::new((all.len() - 1) as nat, |i: int| without_return(all[i]));
    let after = Seq::new((tail.len() - 1) as nat, |i: int| without_return(tail[i]));
    assert(closed =~= seq![without_return(a)] + after);
    assert(text_lines(s) =~= seq![without_return(a)] + text_lines(rest));
    assert(split(a, '\n') == seq![a]);
    assert(text_lines(a) =~= if a.len() == 0 {
        Seq::empty()
    } else {
        seq![a]
    });
}

proof fn lemma_decimal(n: int)
    requires
        0 <= n,
    ensures
        all_digits(decimal(n)),
        digits_value(decimal(n)) == n,
        decimal(n).len() > 0,
    decreases n,
{
    let s = decimal(n);
    if n < 10 {
        assert(s =~= seq![digit_char(n)]);
        assert(s.drop_last() =~= Seq::<char>::empty());
        assert(digits_value(s.drop_last()) == 0);
    } else {
        lemma_decimal(n / 10);
        let init = decimal(n / 10);
        assert(s == init.push(digit_char(n % 10)));
        assert(s.drop_last() =~= init);
        assert forall|i: int| 0 <= i < s.len() implies is_digit(#[trigger] s[i]) by {
            if i < init.len() {
                assert(s[i] == init[i]);
            }
        }
    }
}

/// A number in decimal is read as that number, with a plus or without; with a
/// minus it is read as its negative, where signs are read.
pub proof fn numbers_read_as_written(n: int)
    requires
        0 <= n,
    ensures
        all_digits(decimal(n)),
        digits_value(decimal(n)) == n,
        int_value(decimal(n)) == Some(n),
        int_value(seq!['+'] + decimal(n)) == Some(n),
        int_value(seq!['-'] + decimal(n)) == Some(-n),
        unsigned_value(decimal(n)) == Some(n),
        unsigned_value(seq!['+'] + decimal(n)) == Some(n),
        unsigned_value(seq!['-'] + decimal(n)) is None,
{
    lemma_decimal(n);
    let d = decimal(n);
    assert(is_digit(d[0]));
    assert((seq!['+'] + d).drop_first() =~= d);
    assert((seq!['-'] + d).drop_first() =~= d);
    assert(!is_digit((seq!['-'] + d)[0]));
}

/// A number has no zeros in front, and zeros put in front fill it up to a
/// width and leave its value.
pub proof fn zeros_fill_up(n: int, base: int, width: int)
    requires
        0 <= n,
        2 <= base <= 16,
    ensures
        n > 0 ==> in_base(n, base)[0] != '0',
        zero_padded(in_base(n, base), width).len() >= width,
        zero_padded(in_base(n, base), width).len() == width || zero_padded(in_base(n, base), width)
            == in_base(n, base),
        base_value(zero_padded(in_base(n, base), width), base) == n,
{
    if n > 0 {
        lemma_no_zero_in_front(n, base);
    }
    digits_read_back(n, base);
    let s = in_base(n, base);
    if s.len() < width {
        lemma_leading_zeros(s, (width - s.len()) as nat, base);
    }
}

proof fn lemma_no_zero_in_front(n: int, base: int)
    requires
        0 < n,
        2 <= base <= 16,
    ensures
        in_base(n, base).len() > 0,
        in_base(n, base)[0] != '0',
    decreases n,
{
    if n >= base {
        assert(0 < n / base < n) by (nonlinear_arith)
            requires
                n >= base,
                base >= 2,
        ;
        lemma_no_zero_in_front(n / base, base);
        assert(in_base(n, base)[0] == in_base(n / base, base)[0]);
    }
}

/// Text begins with what it is put behind, and only with that.
pub proof fn text_begins_with_what_comes_first(p: Seq<char>, s: Seq<char>)
    ensures
        has_prefix(p + s, p),
        has_prefix(s, p) ==> s == p + s.skip(p.len() as int),
        s.len() < p.len() ==> !has_prefix(s, p),
{
    assert((p + s).take(p.len() as int) =~= p);
    if has_prefix(s, p) {
        assert(s =~= s.take(p.len() as int) + s.skip(p.len() as int));
    }
}

} // verus!
