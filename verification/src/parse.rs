//! Integer fields of the input tables, read the way Rust's `str::parse` and
//! `from_str_radix` read them, optionally after trimming white space as
//! `str::trim` does.
use vstd::prelude::*;
use vstd::string::StringExecFns;

verus! {

/// The characters with the Unicode `White_Space` property (`char::is_whitespace`).
pub open spec fn is_white_space(c: char) -> bool {
    ||| c == '\t'
    ||| c == '\n'
    ||| c == '\u{0B}'
    ||| c == '\u{0C}'
    ||| c == '\r'
    ||| c == ' '
    ||| c == '\u{85}'
    ||| c == '\u{A0}'
    ||| c == '\u{1680}'
    ||| ('\u{2000}' <= c && c <= '\u{200A}')
    ||| c == '\u{2028}'
    ||| c == '\u{2029}'
    ||| c == '\u{202F}'
    ||| c == '\u{205F}'
    ||| c == '\u{3000}'
}

/// `s` without its leading white space.
pub open spec fn trim_start(s: Seq<char>) -> Seq<char>
    decreases s.len(),
{
    if s.len() > 0 && is_white_space(s[0]) {
        trim_start(s.drop_first())
    } else {
        s
    }
}

/// `s` without its trailing white space.
pub open spec fn trim_end(s: Seq<char>) -> Seq<char>
    decreases s.len(),
{
    if s.len() > 0 && is_white_space(s.last()) {
        trim_end(s.drop_last())
    } else {
        s
    }
}

/// `s` without leading and trailing white space.
pub open spec fn trimmed(s: Seq<char>) -> Seq<char> {
    trim_end(trim_start(s))
}

/// The value of the digit `c` in base `radix`, if it is one: `0`-`9`, then the
/// letters (either case) for 10 and up.
pub open spec fn digit_value(c: char, radix: u32) -> Option<u32> {
    let v: int = if '0' <= c && c <= '9' {
        (c as int) - ('0' as int)
    } else if 'a' <= c && c <= 'z' {
        (c as int) - ('a' as int) + 10
    } else if 'A' <= c && c <= 'Z' {
        (c as int) - ('A' as int) + 10
    } else {
        36
    };
    if v < radix {
        Some(v as u32)
    } else {
        None
    }
}

/// Every character of `s` is a digit in base `radix`.
pub open spec fn all_digits(s: Seq<char>, radix: u32) -> bool {
    forall|i: int| 0 <= i < s.len() ==> #[trigger] digit_value(s[i], radix) is Some
}

/// The number that the digits `s` write in base `radix`.
pub open spec fn digits_value(s: Seq<char>, radix: u32) -> int
    decreases s.len(),
{
    if s.len() == 0 {
        0
    } else {
        digits_value(s.drop_last(), radix) * radix + digit_value(s.last(), radix).unwrap()
    }
}

/// What `u64::from_str_radix(s, radix)` returns on success: an optional `+`,
/// then at least one digit, with a value that fits in `u64`.
pub open spec fn parsed_u64(s: Seq<char>, radix: u32) -> Option<u64> {
    let digits = if s.len() > 0 && s[0] == '+' {
        s.drop_first()
    } else {
        s
    };
    if digits.len() > 0 && all_digits(digits, radix) && digits_value(digits, radix) <= u64::MAX {
        Some(digits_value(digits, radix) as u64)
    } else {
        None
    }
}

/// What `i64::from_str_radix(s, radix)` returns on success: an optional `+` or
/// `-`, then at least one digit, with a value that fits in `i64`.
pub open spec fn parsed_i64(s: Seq<char>, radix: u32) -> Option<i64> {
    let negative = s.len() > 0 && s[0] == '-';
    let digits = if s.len() > 0 && (s[0] == '+' || s[0] == '-') {
        s.drop_first()
    } else {
        s
    };
    let v = if negative {
        -digits_value(digits, radix)
    } else {
        digits_value(digits, radix)
    };
    if digits.len() > 0 && all_digits(digits, radix) && i64::MIN <= v <= i64::MAX {
        Some(v as i64)
    } else {
        None
    }
}

fn field_chars(field: &str) -> (chars: Vec<char>)
    ensures
        chars@ == field@,
{
    let mut chars: Vec<char> = Vec::new();
    for c in it: field.chars()
        invariant
            it.seq() == field@,
            chars@ == it.seq().take(it.index()),
    {
        chars.push(c);
    }
    proof {
        vstd::string::axiom_spec_iter(field);
    }
    chars
}

fn is_white_space_char(c: char) -> (b: bool)
    ensures
        b == is_white_space(c),
{
    c == '\t' || c == '\n' || c == '\u{0B}' || c == '\u{0C}' || c == '\r' || c == ' ' || c
        == '\u{85}' || c == '\u{A0}' || c == '\u{1680}' || ('\u{2000}' <= c && c <= '\u{200A}')
        || c == '\u{2028}' || c == '\u{2029}' || c == '\u{202F}' || c == '\u{205F}' || c
        == '\u{3000}'
}

/// The bounds `lo..hi` of the trimmed part of `s`.
fn trim_bounds(s: &Vec<char>) -> (bounds: (usize, usize))
    ensures
        bounds.0 <= bounds.1 <= s@.len(),
        s@.subrange(bounds.0 as int, bounds.1 as int) == trimmed(s@),
{
    let mut lo: usize = 0;
    assert(s@.subrange(0, s@.len() as int) =~= s@);
    while lo < s.len() && is_white_space_char(s[lo])
        invariant
            lo <= s@.len(),
            trim_start(s@) == trim_start(s@.subrange(lo as int, s@.len() as int)),
        decreases s@.len() - lo,
    {
        assert(s@.subrange(lo as int, s@.len() as int).drop_first() =~= s@.subrange(
            lo + 1,
            s@.len() as int,
        ));
        lo = lo + 1;
    }
    let ghost start = s@.subrange(lo as int, s@.len() as int);
    assert(trim_start(start) == start);
    let mut hi: usize = s.len();
    while hi > lo && is_white_space_char(s[hi - 1])
        invariant
            lo <= hi <= s@.len(),
            start == s@.subrange(lo as int, s@.len() as int),
            trim_end(start) == trim_end(s@.subrange(lo as int, hi as int)),
        decreases hi,
    {
        assert(s@.subrange(lo as int, hi as int).drop_last() =~= s@.subrange(
            lo as int,
            hi - 1,
        ));
        hi = hi - 1;
    }
    (lo, hi)
}

fn digit_of(c: char, radix: u32) -> (d: Option<u32>)
    requires
        2 <= radix <= 36,
    ensures
        d == digit_value(c, radix),
{
    let v: u32 = if '0' <= c && c <= '9' {
        (c as u32) - ('0' as u32)
    } else if 'a' <= c && c <= 'z' {
        (c as u32) - ('a' as u32) + 10
    } else if 'A' <= c && c <= 'Z' {
        (c as u32) - ('A' as u32) + 10
    } else {
        36
    };
    if v < radix {
        Some(v)
    } else {
        None
    }
}

proof fn lemma_digits_value_grows(s: Seq<char>, radix: u32, n: int)
    requires
        2 <= radix <= 36,
        0 <= n <= s.len(),
        all_digits(s, radix),
    ensures
        0 <= digits_value(s.take(n), radix) <= digits_value(s, radix),
    decreases s.len() - n,
{
    if n == s.len() {
        assert(s.take(n) =~= s);
        lemma_digits_value_nonneg(s, radix);
    } else {
        lemma_digits_value_grows(s, radix, n + 1);
        lemma_digits_value_step(s, radix, n);
        lemma_digits_value_nonneg(s.take(n), radix);
        let v = digits_value(s.take(n), radix);
        assert(v <= v * radix) by (nonlinear_arith)
            requires
                v >= 0,
                radix >= 2,
        ;
    }
}

proof fn lemma_digits_value_nonneg(s: Seq<char>, radix: u32)
    requires
        2 <= radix <= 36,
    ensures
        digits_value(s, radix) >= 0,
    decreases s.len(),
{
    if s.len() > 0 {
        lemma_digits_value_nonneg(s.drop_last(), radix);
        let v = digits_value(s.drop_last(), radix);
        assert(v * radix >= 0) by (nonlinear_arith)
            requires
                v >= 0,
                radix >= 2,
        ;
    }
}

proof fn lemma_digits_value_step(s: Seq<char>, radix: u32, n: int)
    requires
        0 <= n < s.len(),
    ensures
        digits_value(s.take(n + 1), radix) == digits_value(s.take(n), radix) * radix
            + digit_value(s[n], radix).unwrap(),
{
    assert(s.take(n + 1).drop_last() =~= s.take(n));
}

/// Reads the digits `s[lo..hi]` in base `radix`; `None` when one is not a digit
/// or the value does not fit in `u64`.
fn digits_to_u64(s: &Vec<char>, lo: usize, hi: usize, radix: u32) -> (r: Option<u64>)
    requires
        2 <= radix <= 36,
        lo <= hi <= s@.len(),
    ensures
        ({
            let d = s@.subrange(lo as int, hi as int);
            if all_digits(d, radix) && digits_value(d, radix) <= u64::MAX {
                r == Some(digits_value(d, radix) as u64)
            } else {
                r is None
            }
        }),
{
    let ghost d = s@.subrange(lo as int, hi as int);
    let mut value: u64 = 0;
    let mut i: usize = lo;
    while i < hi
        invariant
            2 <= radix <= 36,
            lo <= i <= hi <= s@.len(),
            d == s@.subrange(lo as int, hi as int),
            all_digits(d.take(i - lo), radix),
            value == digits_value(d.take(i - lo), radix),
        decreases hi - i,
    {
        let ghost k = i - lo;
        assert(d[k] == s@[i as int]);
        proof {
            lemma_digits_value_step(d, radix, k);
        }
        match digit_of(s[i], radix) {
            None => {
                assert(!all_digits(d, radix));
                return None;
            },
            Some(digit) => {
                assert(all_digits(d.take(k + 1), radix)) by {
                    assert forall|j: int| 0 <= j < k + 1 implies #[trigger] digit_value(
                        d.take(k + 1)[j],
                        radix,
                    ) is Some by {
                        if j < k {
                            assert(d.take(k + 1)[j] == d.take(k)[j]);
                        }
                    }
                }
                let next = match value.checked_mul(radix as u64) {
                    Some(m) => m.checked_add(digit as u64),
                    None => None,
                };
                match next {
                    Some(v) => {
                        value = v;
                    },
                    None => {
                        proof {
                            if all_digits(d, radix) {
                                lemma_digits_value_grows(d, radix, k + 1);
                                lemma_digits_value_nonneg(d.take(k), radix);
                            }
                        }
                        return None;
                    },
                }
            },
        }
        i = i + 1;
    }
    assert(d.take(hi - lo) =~= d);
    Some(value)
}

fn parse_u64_in(s: &Vec<char>, lo: usize, hi: usize, radix: u32) -> (r: Option<u64>)
    requires
        2 <= radix <= 36,
        lo <= hi <= s@.len(),
    ensures
        r == parsed_u64(s@.subrange(lo as int, hi as int), radix),
{
    let ghost t = s@.subrange(lo as int, hi as int);
    let start: usize = if lo < hi && s[lo] == '+' {
        lo + 1
    } else {
        lo
    };
    assert(s@.subrange(start as int, hi as int) =~= (if t.len() > 0 && t[0] == '+' {
        t.drop_first()
    } else {
        t
    }));
    if start == hi {
        return None;
    }
    digits_to_u64(s, start, hi, radix)
}

fn parse_i64_in(s: &Vec<char>, lo: usize, hi: usize, radix: u32) -> (r: Option<i64>)
    requires
        2 <= radix <= 36,
        lo <= hi <= s@.len(),
    ensures
        r == parsed_i64(s@.subrange(lo as int, hi as int), radix),
{
    let ghost t = s@.subrange(lo as int, hi as int);
    assert(lo < hi ==> t[0] == s@[lo as int]);
    let negative = lo < hi && s[lo] == '-';
    let start: usize = if lo < hi && (s[lo] == '+' || s[lo] == '-') {
        lo + 1
    } else {
        lo
    };
    let ghost digits = s@.subrange(start as int, hi as int);
    assert(digits =~= (if t.len() > 0 && (t[0] == '+' || t[0] == '-') {
        t.drop_first()
    } else {
        t
    }));
    if start == hi {
        return None;
    }
    match digits_to_u64(s, start, hi, radix) {
        None => {
            proof {
                if all_digits(digits, radix) {
                    lemma_digits_value_nonneg(digits, radix);
                }
            }
            None
        },
        Some(magnitude) => {
            proof {
                lemma_digits_value_nonneg(digits, radix);
            }
            assert(magnitude == digits_value(digits, radix));
            if negative {
                if magnitude <= 0x8000_0000_0000_0000u64 {
                    if magnitude == 0x8000_0000_0000_0000u64 {
                        Some(i64::MIN)
                    } else {
                        Some(-(magnitude as i64))
                    }
                } else {
                    None
                }
            } else {
                if magnitude <= 0x7fff_ffff_ffff_ffffu64 {
                    Some(magnitude as i64)
                } else {
                    None
                }
            }
        },
    }
}

/// Reads `field` as `u64::from_str_radix(field, radix)` does.
pub fn parse_u64(field: &str, radix: u32) -> (r: Option<u64>)
    requires
        2 <= radix <= 36,
    ensures
        r == parsed_u64(field@, radix),
{
    let chars = field_chars(field);
    assert(chars@.subrange(0, chars@.len() as int) =~= chars@);
    parse_u64_in(&chars, 0, chars.len(), radix)
}

/// Reads `field.trim()` as `u64::from_str_radix(field.trim(), radix)` does.
pub fn parse_trimmed_u64(field: &str, radix: u32) -> (r: Option<u64>)
    requires
        2 <= radix <= 36,
    ensures
        r == parsed_u64(trimmed(field@), radix),
{
    let chars = field_chars(field);
    let (lo, hi) = trim_bounds(&chars);
    parse_u64_in(&chars, lo, hi, radix)
}

/// Reads `field.trim()` as `i64::from_str_radix(field.trim(), radix)` does.
pub fn parse_trimmed_i64(field: &str, radix: u32) -> (r: Option<i64>)
    requires
        2 <= radix <= 36,
    ensures
        r == parsed_i64(trimmed(field@), radix),
{
    let chars = field_chars(field);
    let (lo, hi) = trim_bounds(&chars);
    parse_i64_in(&chars, lo, hi, radix)
}


/// The decimal digit for `d < 10`.
pub open spec fn digit_char(d: nat) -> char {
    if d == 0 {
        '0'
    } else if d == 1 {
        '1'
    } else if d == 2 {
        '2'
    } else if d == 3 {
        '3'
    } else if d == 4 {
        '4'
    } else if d == 5 {
        '5'
    } else if d == 6 {
        '6'
    } else if d == 7 {
        '7'
    } else if d == 8 {
        '8'
    } else {
        '9'
    }
}

/// `n` written in decimal, without sign or leading zeros (as `u64::to_string` writes it).
pub open spec fn decimal_digits(n: nat) -> Seq<char>
    decreases n,
{
    if n < 10 {
        seq![digit_char(n)]
    } else {
        decimal_digits(n / 10).push(digit_char(n % 10))
    }
}

fn digit_text(d: u64) -> (s: &'static str)
    requires
        d < 10,
    ensures
        s@ == seq![digit_char(d as nat)],
{
    proof {
        reveal_strlit("0");
        reveal_strlit("1");
        reveal_strlit("2");
        reveal_strlit("3");
        reveal_strlit("4");
        reveal_strlit("5");
        reveal_strlit("6");
        reveal_strlit("7");
        reveal_strlit("8");
        reveal_strlit("9");
    }
    if d == 0 {
        "0"
    } else if d == 1 {
        "1"
    } else if d == 2 {
        "2"
    } else if d == 3 {
        "3"
    } else if d == 4 {
        "4"
    } else if d == 5 {
        "5"
    } else if d == 6 {
        "6"
    } else if d == 7 {
        "7"
    } else if d == 8 {
        "8"
    } else {
        "9"
    }
}

/// Writes `n` in decimal.
pub fn decimal(n: u64) -> (s: String)
    ensures
        s@ == decimal_digits(n as nat),
    decreases n,
{
    if n < 10 {
        String::from_str(digit_text(n))
    } else {
        let mut s = decimal(n / 10);
        s.append(digit_text(n % 10));
        s
    }
}

proof fn lemma_decimal_digits_value(n: nat)
    ensures
        decimal_digits(n).len() > 0,
        all_digits(decimal_digits(n), 10),
        digits_value(decimal_digits(n), 10) == n,
        decimal_digits(n)[0] != '+',
    decreases n,
{
    if n < 10 {
        assert(digits_value(decimal_digits(n).drop_last(), 10) == 0);
    } else {
        lemma_decimal_digits_value(n / 10);
        let s = decimal_digits(n / 10);
        let t = decimal_digits(n);
        assert(t.drop_last() =~= s);
        assert forall|i: int| 0 <= i < t.len() implies #[trigger] digit_value(t[i], 10) is Some by {
            if i < s.len() {
                assert(t[i] == s[i]);
            }
        }
        assert(t[0] == s[0]);
    }
}

/// A tenancy or count that the tenancy table is written with reads back as
/// itself: decimal text parses to the number it writes.
pub proof fn lemma_decimal_reads_back(n: u64)
    ensures
        parsed_u64(decimal_digits(n as nat), 10) == Some(n),
        parsed_u64(trimmed(decimal_digits(n as nat)), 10) == Some(n),
{
    let s = decimal_digits(n as nat);
    lemma_decimal_digits_value(n as nat);
    assert(digit_value(s[0], 10) is Some);
    assert(digit_value(s.last(), 10) is Some);
    assert(trim_start(s) == s);
    assert(trim_end(s) == s);
}


/// Every character of `p` is white space.
pub open spec fn all_white_space(p: Seq<char>) -> bool {
    forall|i: int| 0 <= i < p.len() ==> #[trigger] is_white_space(p[i])
}

/// The digit for `d < 16`: `0`-`9`, then `a`-`f`.
pub open spec fn radix_digit(d: nat) -> char {
    if d < 10 {
        digit_char(d)
    } else if d == 10 {
        'a'
    } else if d == 11 {
        'b'
    } else if d == 12 {
        'c'
    } else if d == 13 {
        'd'
    } else if d == 14 {
        'e'
    } else {
        'f'
    }
}

/// `n` written in base `radix` (2 to 16), without sign or leading zeros.
pub open spec fn numeral(n: nat, radix: nat) -> Seq<char>
    decreases n,
{
    if n < radix || radix < 2 {
        seq![radix_digit(n)]
    } else {
        proof {
            vstd::arithmetic::div_mod::lemma_div_decreases(n as int, radix as int);
        }
        numeral(n / radix, radix).push(radix_digit(n % radix))
    }
}

/// `v` written in base `radix`, with a `-` before a negative number.
pub open spec fn signed_numeral(v: int, radix: nat) -> Seq<char> {
    if v < 0 {
        seq!['-'] + numeral((-v) as nat, radix)
    } else {
        numeral(v as nat, radix)
    }
}

proof fn lemma_radix_digit_value(d: nat, radix: u32)
    requires
        d < radix <= 16,
    ensures
        digit_value(radix_digit(d), radix) == Some(d as u32),
        !is_white_space(radix_digit(d)),
        radix_digit(d) != '+',
        radix_digit(d) != '-',
{
}

proof fn lemma_numeral_value(n: nat, radix: u32)
    requires
        2 <= radix <= 16,
    ensures
        numeral(n, radix as nat).len() > 0,
        all_digits(numeral(n, radix as nat), radix),
        digits_value(numeral(n, radix as nat), radix) == n,
        digit_value(numeral(n, radix as nat)[0], radix) is Some,
        digit_value(numeral(n, radix as nat).last(), radix) is Some,
    decreases n,
{
    let r = radix as nat;
    let t = numeral(n, r);
    if n < r {
        lemma_radix_digit_value(n, radix);
        assert(digits_value(t.drop_last(), radix) == 0);
    } else {
        vstd::arithmetic::div_mod::lemma_div_decreases(n as int, r as int);
        vstd::arithmetic::div_mod::lemma_fundamental_div_mod(n as int, r as int);
        vstd::arithmetic::div_mod::lemma_mod_bound(n as int, r as int);
        lemma_numeral_value(n / r, radix);
        lemma_radix_digit_value(n % r, radix);
        let s = numeral(n / r, r);
        assert(t.drop_last() =~= s);
        assert forall|i: int| 0 <= i < t.len() implies #[trigger] digit_value(t[i], radix) is Some by {
            if i < s.len() {
                assert(t[i] == s[i]);
            }
        }
        assert(t[0] == s[0]);
        assert(digits_value(t, radix) == (n / r) * r + n % r);
    }
}

/// No digit is white space or a sign.
pub proof fn lemma_digit_not_space(c: char, radix: u32)
    requires
        radix <= 36,
        digit_value(c, radix) is Some,
    ensures
        !is_white_space(c),
        c != '+',
        c != '-',
{
}

proof fn lemma_trim_start_padding(p: Seq<char>, s: Seq<char>)
    requires
        all_white_space(p),
        s.len() > 0,
        !is_white_space(s[0]),
    ensures
        trim_start(p + s) == s,
    decreases p.len(),
{
    if p.len() == 0 {
        assert(p + s =~= s);
    } else {
        assert((p + s).drop_first() =~= p.drop_first() + s);
        assert((p + s)[0] == p[0]);
        assert forall|i: int| 0 <= i < p.drop_first().len() implies #[trigger] is_white_space(
            p.drop_first()[i],
        ) by {
            assert(p.drop_first()[i] == p[i + 1]);
        }
        lemma_trim_start_padding(p.drop_first(), s);
    }
}

proof fn lemma_trim_end_padding(s: Seq<char>, q: Seq<char>)
    requires
        all_white_space(q),
        s.len() > 0,
        !is_white_space(s.last()),
    ensures
        trim_end(s + q) == s,
    decreases q.len(),
{
    if q.len() == 0 {
        assert(s + q =~= s);
    } else {
        assert((s + q).drop_last() =~= s + q.drop_last());
        assert((s + q).last() == q.last());
        assert forall|i: int| 0 <= i < q.drop_last().len() implies #[trigger] is_white_space(
            q.drop_last()[i],
        ) by {
            assert(q.drop_last()[i] == q[i]);
        }
        lemma_trim_end_padding(s, q.drop_last());
    }
}

/// Trimming takes off exactly the white space around a text that neither starts
/// nor ends with white space.
pub proof fn lemma_trimmed_padding(p: Seq<char>, s: Seq<char>, q: Seq<char>)
    requires
        all_white_space(p),
        all_white_space(q),
        s.len() > 0,
        !is_white_space(s[0]),
        !is_white_space(s.last()),
    ensures
        trimmed(p + s + q) == s,
{
    assert(p + s + q =~= p + (s + q));
    assert((s + q)[0] == s[0]);
    lemma_trim_start_padding(p, s + q);
    lemma_trim_end_padding(s, q);
}

/// A number written in base `radix` reads back as itself, also with white space
/// around it once trimmed, whether read as `u64` or as `i64` (where it fits).
pub proof fn lemma_numeral_reads_back(n: u64, radix: u32, p: Seq<char>, q: Seq<char>)
    requires
        2 <= radix <= 16,
        all_white_space(p),
        all_white_space(q),
    ensures
        parsed_u64(numeral(n as nat, radix as nat), radix) == Some(n),
        parsed_u64(trimmed(p + numeral(n as nat, radix as nat) + q), radix) == Some(n),
        n <= i64::MAX ==> parsed_i64(trimmed(p + numeral(n as nat, radix as nat) + q), radix) == Some(
            n as i64,
        ),
{
    let t = numeral(n as nat, radix as nat);
    lemma_numeral_value(n as nat, radix);
    lemma_digit_not_space(t[0], radix);
    lemma_digit_not_space(t.last(), radix);
    lemma_trimmed_padding(p, t, q);
}

/// A signed number written in base `radix`, with white space around it, reads
/// back as itself once trimmed, when read as `i64`.
pub proof fn lemma_signed_numeral_reads_back(v: i64, radix: u32, p: Seq<char>, q: Seq<char>)
    requires
        2 <= radix <= 16,
        all_white_space(p),
        all_white_space(q),
    ensures
        parsed_i64(trimmed(p + signed_numeral(v as int, radix as nat) + q), radix) == Some(v),
{
    if v >= 0 {
        lemma_numeral_reads_back(v as u64, radix, p, q);
    } else {
        let m = (-v) as nat;
        let t = numeral(m, radix as nat);
        let u = seq!['-'] + t;
        lemma_numeral_value(m, radix);
        lemma_digit_not_space(t.last(), radix);
        assert(u.last() == t.last());
        assert(u[0] == '-');
        lemma_trimmed_padding(p, u, q);
        assert(u.drop_first() =~= t);
    }
}


/// The usual separators are white space: space, tab, line feed, carriage return,
/// no-break space and ideographic space.
pub proof fn lemma_common_white_space()
    ensures
        is_white_space(' '),
        is_white_space('\t'),
        is_white_space('\n'),
        is_white_space('\r'),
        is_white_space('\u{A0}'),
        is_white_space('\u{3000}'),
{
}

/// The upper-case letter of a digit `10 <= d < 16`.
pub open spec fn upper_radix_digit(d: nat) -> char {
    if d == 10 {
        'A'
    } else if d == 11 {
        'B'
    } else if d == 12 {
        'C'
    } else if d == 13 {
        'D'
    } else if d == 14 {
        'E'
    } else {
        'F'
    }
}

/// In a radix up to 16, a character is a digit exactly when it is one of the
/// radix's digits (a letter in either case), and its value is that digit's.
pub proof fn lemma_digit_is_radix_digit(c: char, radix: u32)
    requires
        2 <= radix <= 16,
    ensures
        digit_value(c, radix) matches Some(d) ==> d < radix && (c == radix_digit(d as nat) || (
        10 <= d && c == upper_radix_digit(d as nat))),
        forall|d: nat| d < radix ==> digit_value(#[trigger] radix_digit(d), radix) == Some(d as u32),
{
    assert forall|d: nat| d < radix implies digit_value(#[trigger] radix_digit(d), radix) == Some(
        d as u32,
    ) by {
        lemma_radix_digit_value(d, radix);
    }
}

/// A successful read accepts nothing but digits of the radix after an optional
/// sign (`+`, and for `i64` also `-`), with at least one digit.
pub proof fn lemma_read_text_is_digits(s: Seq<char>, radix: u32)
    requires
        2 <= radix <= 36,
    ensures
        parsed_u64(s, radix) is Some ==> s.len() > 0 && !(s.len() == 1 && s[0] == '+') && forall|i: int|
            0 <= i < s.len() ==> #[trigger] digit_value(s[i], radix) is Some || (i == 0 && s[0]
                == '+'),
        parsed_i64(s, radix) is Some ==> s.len() > 0 && !(s.len() == 1 && (s[0] == '+' || s[0]
            == '-')) && forall|i: int|
            0 <= i < s.len() ==> #[trigger] digit_value(s[i], radix) is Some || (i == 0 && (s[0]
                == '+' || s[0] == '-')),
{
    if parsed_u64(s, radix) is Some && s.len() > 0 && s[0] == '+' {
        assert forall|i: int| 0 < i < s.len() implies #[trigger] digit_value(s[i], radix) is Some by {
            assert(s[i] == s.drop_first()[i - 1]);
        }
    }
    if parsed_i64(s, radix) is Some && s.len() > 0 && (s[0] == '+' || s[0] == '-') {
        assert forall|i: int| 0 < i < s.len() implies #[trigger] digit_value(s[i], radix) is Some by {
            assert(s[i] == s.drop_first()[i - 1]);
        }
    }
}

/// Numbers too large for the type are refused: a `u64` read refuses a number
/// above `u64::MAX`, an `i64` read one above `i64::MAX`, and one below `i64::MIN`.
pub proof fn lemma_too_large_is_refused(n: nat, radix: u32)
    requires
        2 <= radix <= 16,
    ensures
        n > u64::MAX ==> parsed_u64(numeral(n, radix as nat), radix) is None,
        n > i64::MAX ==> parsed_i64(numeral(n, radix as nat), radix) is None,
        n > 0x8000_0000_0000_0000 ==> parsed_i64(seq!['-'] + numeral(n, radix as nat), radix) is None,
{
    let t = numeral(n, radix as nat);
    lemma_numeral_value(n, radix);
    lemma_digit_not_space(t[0], radix);
    let u = seq!['-'] + t;
    assert(u.drop_first() =~= t);
}

} // verus!
