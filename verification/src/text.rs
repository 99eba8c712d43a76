//! Character and string helpers used by the wire codec and dispatcher:
//! whitespace trimming, signed decimal parsing and formatting, and case
//! folding for command names.

use vstd::prelude::*;

verus! {

// ---------------------------------------------------------------------------
// Whitespace and trimming
// ---------------------------------------------------------------------------

/// The whitespace characters recognised when a line is trimmed: the
/// Unicode White_Space set, as `char::is_whitespace` reports it (tab
/// through carriage return, space, next line, no-break space, ogham space
/// mark, the en-quad..hair-space run, the line and paragraph separators,
/// the narrow and medium mathematical spaces, and the ideographic space).
pub open spec fn is_ws(c: char) -> bool {
    ('\u{9}' <= c && c <= '\u{D}') || c == ' ' || c == '\u{85}' || c == '\u{A0}'
        || c == '\u{1680}' || ('\u{2000}' <= c && c <= '\u{200A}') || c == '\u{2028}'
        || c == '\u{2029}' || c == '\u{202F}' || c == '\u{205F}' || c == '\u{3000}'
}

fn is_ws_char(c: char) -> (r: bool)
    ensures
        r == is_ws(c),
{
    ('\u{9}' <= c && c <= '\u{D}') || c == ' ' || c == '\u{85}' || c == '\u{A0}'
        || c == '\u{1680}' || ('\u{2000}' <= c && c <= '\u{200A}') || c == '\u{2028}'
        || c == '\u{2029}' || c == '\u{202F}' || c == '\u{205F}' || c == '\u{3000}'
}

/// `s` with its longest whitespace prefix removed.
pub open spec fn trim_front(s: Seq<char>) -> Seq<char>
    decreases s.len(),
{
    if s.len() > 0 && is_ws(s[0]) {
        trim_front(s.drop_first())
    } else {
        s
    }
}

/// `s` with its longest whitespace suffix removed.
pub open spec fn trim_back(s: Seq<char>) -> Seq<char>
    decreases s.len(),
{
    if s.len() > 0 && is_ws(s.last()) {
        trim_back(s.drop_last())
    } else {
        s
    }
}

/// `s` with whitespace stripped from both ends.
pub open spec fn trim_spec(s: Seq<char>) -> Seq<char> {
    trim_back(trim_front(s))
}

proof fn lemma_trim_front_skip(s: Seq<char>, a: int)
    requires
        0 <= a <= s.len(),
        forall|k: int| 0 <= k < a ==> is_ws(#[trigger] s[k]),
    ensures
        trim_front(s) == trim_front(s.skip(a)),
    decreases a,
{
    if a > 0 {
        assert(s.len() > 0 && is_ws(s[0]));
        assert(s.drop_first() =~= s.skip(1));
        lemma_trim_front_skip(s.skip(1), a - 1);
        assert(s.skip(1).skip(a - 1) =~= s.skip(a));
    } else {
        assert(s.skip(0) =~= s);
    }
}

proof fn lemma_trim_back_sub(s: Seq<char>, b: int)
    requires
        0 <= b <= s.len(),
        forall|k: int| b <= k < s.len() ==> is_ws(#[trigger] s[k]),
    ensures
        trim_back(s) == trim_back(s.take(b)),
    decreases s.len() - b,
{
    if b < s.len() {
        assert(s.len() > 0 && is_ws(s.last()));
        assert(s.drop_last() =~= s.take(s.len() - 1));
        lemma_trim_back_sub(s.take(s.len() - 1), b);
        assert(s.take(s.len() - 1).take(b) =~= s.take(b));
    } else {
        assert(s.take(b) =~= s);
    }
}

/// A copy of `s` with leading and trailing whitespace removed.
pub fn trim_str(s: &str) -> (res: String)
    ensures
        res@ == trim_spec(s@),
{
    let n = s.unicode_len();
    let mut a: usize = 0;
    while a < n && is_ws_char(s.get_char(a))
        invariant
            0 <= a <= n,
            n == s@.len(),
            forall|k: int| 0 <= k < a ==> is_ws(#[trigger] s@[k]),
        decreases n - a,
    {
        a = a + 1;
    }
    proof {
        lemma_trim_front_skip(s@, a as int);
    }
    let mut b: usize = n;
    while b > a && is_ws_char(s.get_char(b - 1))
        invariant
            a <= b <= n,
            n == s@.len(),
            forall|k: int| b <= k < n ==> is_ws(#[trigger] s@[k]),
        decreases b,
    {
        b = b - 1;
    }
    proof {
        let f = s@.skip(a as int);
        assert(forall|k: int| b - a <= k < f.len() ==> is_ws(#[trigger] f[k]));
        lemma_trim_back_sub(f, b - a);
        assert(f.take(b - a) =~= s@.subrange(a as int, b as int));
        if b > a {
            assert(!is_ws(s@[b - 1]));
            assert(s@.subrange(a as int, b as int).last() == s@[b - 1]);
        }
        if a < n {
            assert(!is_ws(s@[a as int]));
        }
        // the subrange neither starts nor ends with whitespace
        assert(trim_back(s@.subrange(a as int, b as int)) == s@.subrange(a as int, b as int));
    }
    s.substring_char(a, b).to_owned()
}

// ---------------------------------------------------------------------------
// Decimal digits
// ---------------------------------------------------------------------------

pub open spec fn is_digit(c: char) -> bool {
    '0' <= c && c <= '9'
}

pub open spec fn digit_val(c: char) -> int {
    c as int - '0' as int
}

/// Every character of `s` is a decimal digit.
pub open spec fn all_digits(s: Seq<char>) -> bool {
    forall|i: int| 0 <= i < s.len() ==> is_digit(#[trigger] s[i])
}

/// The value of a string of decimal digits, most significant first.
pub open spec fn digits_val(s: Seq<char>) -> int
    decreases s.len(),
{
    if s.len() == 0 {
        0
    } else {
        digits_val(s.drop_last()) * 10 + digit_val(s.last())
    }
}

proof fn lemma_digits_val_nonneg(s: Seq<char>)
    requires
        all_digits(s),
    ensures
        digits_val(s) >= 0,
    decreases s.len(),
{
    if s.len() > 0 {
        lemma_digits_val_nonneg(s.drop_last());
    }
}

proof fn lemma_digits_val_prefix(s: Seq<char>, k: int)
    requires
        all_digits(s),
        0 <= k <= s.len(),
    ensures
        digits_val(s) >= digits_val(s.take(k)),
    decreases s.len() - k,
{
    if k < s.len() {
        lemma_digits_val_prefix(s, k + 1);
        let t = s.take(k + 1);
        assert(t.drop_last() =~= s.take(k));
        assert(all_digits(s.take(k)));
        lemma_digits_val_nonneg(s.take(k));
        assert(digits_val(t) == digits_val(s.take(k)) * 10 + digit_val(s[k]));
    } else {
        assert(s.take(k) =~= s);
    }
}

// ---------------------------------------------------------------------------
// Parsing a signed 64-bit integer, as `str::parse::<i64>` reads it:
// an optional sign, then one or more digits, and the value must fit.
// ---------------------------------------------------------------------------

/// Whether the numeral carries a minus sign.
pub open spec fn numeral_neg(s: Seq<char>) -> bool {
    s.len() > 0 && s[0] == '-'
}

/// The digit portion of the numeral: everything after an optional sign.
pub open spec fn numeral_digits(s: Seq<char>) -> Seq<char> {
    if s.len() > 0 && (s[0] == '-' || s[0] == '+') {
        s.drop_first()
    } else {
        s
    }
}

/// What parsing `s` as a signed 64-bit decimal integer yields: the value,
/// or nothing when `s` is not a well-formed in-range numeral.
pub open spec fn parse_i64_spec(s: Seq<char>) -> Option<int> {
    let neg = numeral_neg(s);
    let ds = numeral_digits(s);
    if ds.len() == 0 || !all_digits(ds) {
        None
    } else {
        let v = if neg {
            -digits_val(ds)
        } else {
            digits_val(ds)
        };
        if i64::MIN <= v <= i64::MAX {
            Some(v)
        } else {
            None
        }
    }
}

fn digit_of(c: char) -> (r: Option<u64>)
    ensures
        match r {
            Some(d) => is_digit(c) && d == digit_val(c) && d < 10,
            None => !is_digit(c),
        },
{
    if '0' <= c && c <= '9' {
        Some((c as u32 - '0' as u32) as u64)
    } else {
        None
    }
}

/// Parses `s` as a signed decimal 64-bit integer.
pub fn parse_i64(s: &str) -> (r: Option<i64>)
    ensures
        match r {
            Some(n) => parse_i64_spec(s@) == Some(n as int),
            None => parse_i64_spec(s@) is None,
        },
{
    let n = s.unicode_len();
    let mut start: usize = 0;
    let mut neg = false;
    if n > 0 {
        let c0 = s.get_char(0);
        if c0 == '-' {
            neg = true;
            start = 1;
        } else if c0 == '+' {
            start = 1;
        }
    }
    let ghost ds = numeral_digits(s@);
    proof {
        assert(ds =~= s@.skip(start as int));
    }
    if start >= n {
        // empty digit string
        return None;
    }
    let mut acc: u64 = 0;
    let mut j: usize = start;
    while j < n
        invariant
            start <= j <= n,
            n == s@.len(),
            start <= 1,
            ds == numeral_digits(s@),
            ds == s@.skip(start as int),
            neg == numeral_neg(s@),
            all_digits(s@.subrange(start as int, j as int)),
            acc == digits_val(s@.subrange(start as int, j as int)),
        decreases n - j,
    {
        let c = s.get_char(j);
        let d = match digit_of(c) {
            Some(d) => d,
            None => {
                proof {
                    assert(ds[j - start] == s@[j as int]);
                    assert(!all_digits(ds));
                }
                return None;
            },
        };
        let ghost pre = s@.subrange(start as int, j as int);
        let ghost pre1 = s@.subrange(start as int, j + 1 as int);
        proof {
            assert(pre1.drop_last() =~= pre);
            assert(pre1.last() == s@[j as int]);
        }
        let step = match acc.checked_mul(10) {
            Some(x) => x.checked_add(d),
            None => None,
        };
        match step {
            Some(x) => {
                acc = x;
            },
            None => {
                // the numeral exceeds what fits in 64 bits, so it is out of
                // range for i64 whichever sign it carries (unless a later
                // character is not a digit, which also fails the parse)
                proof {
                    if all_digits(ds) {
                        assert(digits_val(pre1) > u64::MAX);
                        lemma_digits_val_prefix(ds, j + 1 - start as int);
                        assert(ds.take(j + 1 - start as int) =~= pre1);
                        assert(digits_val(ds) > u64::MAX);
                    }
                }
                return None;
            },
        }
        j = j + 1;
    }
    proof {
        assert(s@.subrange(start as int, n as int) =~= ds);
    }
    if neg {
        if acc > 9223372036854775808u64 {
            return None;
        } else if acc == 9223372036854775808u64 {
            Some(i64::MIN)
        } else {
            Some(-(acc as i64))
        }
    } else {
        if acc > i64::MAX as u64 {
            return None;
        }
        Some(acc as i64)
    }
}

// ---------------------------------------------------------------------------
// Formatting integers in decimal
// ---------------------------------------------------------------------------

pub open spec fn dec_digit_char(d: int) -> char {
    if d == 0 {
        '0'
    } else if d == 1 {
        '1'
    } else if d == 2 {
        '2'
    } else if d == 3 {
        '3'
    } else if d == 4 {
        '4'
    } else if d == 5 {
        '5'
    } else if d == 6 {
        '6'
    } else if d == 7 {
        '7'
    } else if d == 8 {
        '8'
    } else {
        '9'
    }
}

/// The decimal numeral of a non-negative integer.
pub open spec fn dec_nat(n: int) -> Seq<char>
    decreases n,
{
    if n < 10 {
        seq![dec_digit_char(n)]
    } else {
        dec_nat(n / 10).push(dec_digit_char(n % 10))
    }
}

/// The decimal numeral of an integer, with a leading minus sign when negative.
pub open spec fn dec_int(n: int) -> Seq<char> {
    if n < 0 {
        seq!['-'] + dec_nat(-n)
    } else {
        dec_nat(n)
    }
}

fn digit_str(d: u64) -> (r: &'static str)
    requires
        d < 10,
    ensures
        r@ == seq![dec_digit_char(d as int)],
{
    proof {
        reveal_strlit("0");
        reveal_strlit("1");
        reveal_strlit("2");
        reveal_strlit("3");
        reveal_strlit("4");
        reveal_strlit("5");
        reveal_strlit("6");
        reveal_strlit("7");
        reveal_strlit("8");
        reveal_strlit("9");
    }
    let r = if d == 0 {
        "0"
    } else if d == 1 {
        "1"
    } else if d == 2 {
        "2"
    } else if d == 3 {
        "3"
    } else if d == 4 {
        "4"
    } else if d == 5 {
        "5"
    } else if d == 6 {
        "6"
    } else if d == 7 {
        "7"
    } else if d == 8 {
        "8"
    } else {
        "9"
    };
    proof {
        assert(r@ =~= seq![dec_digit_char(d as int)]);
    }
    r
}

/// Formats an unsigned 64-bit integer in decimal.
pub fn fmt_u64(n: u64) -> (r: String)
    ensures
        r@ == dec_nat(n as int),
    decreases n,
{
    if n < 10 {
        digit_str(n).to_owned()
    } else {
        let mut s = fmt_u64(n / 10);
        s.append(digit_str(n % 10));
        proof {
            assert(s@ =~= dec_nat((n / 10) as int).push(dec_digit_char((n % 10) as int)));
        }
        s
    }
}

/// Formats a length in decimal.
pub fn fmt_usize(n: usize) -> (r: String)
    ensures
        r@ == dec_nat(n as int),
{
    fmt_u64(n as u64)
}

/// Formats a signed 64-bit integer in decimal.
pub fn fmt_i64(n: i64) -> (r: String)
    ensures
        r@ == dec_int(n as int),
{
    if n >= 0 {
        fmt_u64(n as u64)
    } else {
        let mag: u64 = if n == i64::MIN {
            9223372036854775808u64
        } else {
            (-n) as u64
        };
        let mut s = String::from_str("-");
        let digits = fmt_u64(mag);
        s.append(digits.as_str());
        proof {
            reveal_strlit("-");
            assert(s@ =~= seq!['-'] + dec_nat(mag as int));
        }
        s
    }
}

/// Trimming never lengthens a string.
pub proof fn lemma_trim_le(s: Seq<char>)
    ensures
        trim_front(s).len() <= s.len(),
        trim_back(s).len() <= s.len(),
    decreases s.len(),
{
    if s.len() > 0 {
        lemma_trim_le(s.drop_first());
        lemma_trim_le(s.drop_last());
    }
}

/// A string that neither starts nor ends with whitespace is its own trim.
pub proof fn lemma_trim_id(s: Seq<char>)
    requires
        s.len() == 0 || (!is_ws(s[0]) && !is_ws(s.last())),
    ensures
        trim_spec(s) == s,
{
    assert(trim_front(s) == s);
    assert(trim_back(s) == s);
}

/// A trim-invariant string followed by CR LF trims back to itself.
pub proof fn lemma_trim_content_line(s: Seq<char>)
    requires
        trim_spec(s) == s,
    ensures
        trim_spec(s + seq!['\r', '\n']) == s,
{
    let t = s + seq!['\r', '\n'];
    lemma_trim_le(s);
    lemma_trim_le(trim_front(s));
    // trim_spec(s) == s forces both halves to leave s unchanged
    assert(trim_back(trim_front(s)).len() <= trim_front(s).len() <= s.len());
    assert(trim_front(s).len() == s.len());
    lemma_trim_front_full(s);
    assert(trim_front(s) == s);
    assert(trim_back(s) == s);
    if s.len() == 0 {
        assert(t =~= seq!['\r', '\n']);
        assert(t[0] == '\r');
        assert(t.drop_first() =~= seq!['\n']);
        assert(trim_front(t) == trim_front(seq!['\n']));
        assert(seq!['\n'][0] == '\n');
        assert(seq!['\n'].drop_first() =~= Seq::<char>::empty());
        assert(trim_front(seq!['\n']) == trim_front(Seq::<char>::empty()));
        assert(trim_front(Seq::<char>::empty()) == Seq::<char>::empty());
        assert(trim_back(Seq::<char>::empty()) == Seq::<char>::empty());
        assert(trim_spec(t) =~= s);
    } else {
        if is_ws(s[0]) {
            lemma_trim_le(s.drop_first());
            assert(trim_front(s).len() < s.len());
            assert(false);
        }
        assert(t[0] == s[0]);
        assert(trim_front(t) == t);
        assert(t.last() == '\n');
        assert(t.drop_last() =~= s + seq!['\r']);
        assert(trim_back(t) == trim_back(s + seq!['\r']));
        assert((s + seq!['\r']).last() == '\r');
        assert((s + seq!['\r']).drop_last() =~= s);
        assert(trim_back(s + seq!['\r']) == trim_back(s));
    }
}

/// A trim whose length is unchanged changed nothing.
proof fn lemma_trim_front_full(s: Seq<char>)
    requires
        trim_front(s).len() == s.len(),
    ensures
        trim_front(s) == s,
    decreases s.len(),
{
    if s.len() > 0 && is_ws(s[0]) {
        lemma_trim_le(s.drop_first());
    }
}

/// The decimal numeral of an integer is one or more digits.
pub proof fn lemma_dec_nat_digits(n: int)
    requires
        n >= 0,
    ensures
        all_digits(dec_nat(n)),
        dec_nat(n).len() >= 1,
    decreases n,
{
    if n >= 10 {
        lemma_dec_nat_digits(n / 10);
        let d = dec_nat(n / 10);
        assert(forall|i: int|
            0 <= i < d.push(dec_digit_char(n % 10)).len() ==> is_digit(
                #[trigger] d.push(dec_digit_char(n % 10))[i],
            ));
    }
}

/// A digit character reads back as its digit.
proof fn lemma_digit_roundtrip(d: int)
    requires
        0 <= d <= 9,
    ensures
        digit_val(dec_digit_char(d)) == d,
{
    assert(digit_val('0') == 0);
    assert(digit_val('1') == 1);
    assert(digit_val('2') == 2);
    assert(digit_val('3') == 3);
    assert(digit_val('4') == 4);
    assert(digit_val('5') == 5);
    assert(digit_val('6') == 6);
    assert(digit_val('7') == 7);
    assert(digit_val('8') == 8);
    assert(digit_val('9') == 9);
}

/// Formatting and then reading the digits gives the number back.
pub proof fn lemma_dec_nat_value(n: int)
    requires
        n >= 0,
    ensures
        digits_val(dec_nat(n)) == n,
    decreases n,
{
    if n < 10 {
        lemma_digit_roundtrip(n);
        let s1 = seq![dec_digit_char(n)];
        assert(dec_nat(n) == s1);
        assert(s1.len() == 1);
        assert(s1.drop_last() =~= Seq::<char>::empty());
        assert(digits_val(Seq::<char>::empty()) == 0);
        assert(s1.last() == dec_digit_char(n));
        assert(digits_val(s1) == digits_val(s1.drop_last()) * 10 + digit_val(s1.last()));
    } else {
        lemma_dec_nat_value(n / 10);
        lemma_digit_roundtrip(n % 10);
        let s2 = dec_nat(n / 10).push(dec_digit_char(n % 10));
        assert(dec_nat(n) == s2);
        assert(s2.len() == dec_nat(n / 10).len() + 1);
        assert(s2.drop_last() =~= dec_nat(n / 10));
        assert(s2.last() == dec_digit_char(n % 10));
        assert(digits_val(s2) == digits_val(s2.drop_last()) * 10 + digit_val(s2.last()));
    }
}

/// Parsing the decimal form of an in-range integer gives it back.
pub proof fn lemma_parse_dec_int(n: int)
    requires
        i64::MIN <= n <= i64::MAX,
    ensures
        parse_i64_spec(dec_int(n)) == Some(n),
{
    if n >= 0 {
        lemma_dec_nat_digits(n);
        lemma_dec_nat_value(n);
        let s = dec_nat(n);
        assert(is_digit(s[0]));
        assert(s[0] != '-' && s[0] != '+');
        assert(numeral_digits(s) == s);
        assert(!numeral_neg(s));
    } else {
        lemma_dec_nat_digits(-n);
        lemma_dec_nat_value(-n);
        let s = seq!['-'] + dec_nat(-n);
        assert(dec_int(n) == s);
        assert(s[0] == '-');
        assert(numeral_neg(s));
        assert(numeral_digits(s) =~= dec_nat(-n));
        assert(all_digits(dec_nat(-n)));
        assert(digits_val(dec_nat(-n)) == -n);
    }
}

/// The decimal form of a numeral has no whitespace at either end and no
/// line feed anywhere: it is its own trim, and fits on one line.
pub proof fn lemma_dec_int_trim(n: int)
    ensures
        trim_spec(dec_int(n)) == dec_int(n),
        dec_int(n).len() >= 1,
        !is_ws(dec_int(n)[0]),
        !is_ws(dec_int(n).last()),
        forall|k: int| 0 <= k < dec_int(n).len() ==> #[trigger] dec_int(n)[k] != '\n',
{
    if n >= 0 {
        lemma_dec_nat_digits(n);
        let s = dec_nat(n);
        assert(is_digit(s[0]) && is_digit(s.last()));
        lemma_trim_id(s);
        assert(forall|k: int| 0 <= k < s.len() ==> is_digit(#[trigger] s[k]) && s[k] != '\n');
    } else {
        lemma_dec_nat_digits(-n);
        let s = seq!['-'] + dec_nat(-n);
        assert(dec_int(n) == s);
        assert(!is_ws(s[0]));
        assert(is_digit(s.last()));
        lemma_trim_id(s);
        assert(forall|k: int|
            1 <= k < s.len() ==> is_digit(#[trigger] s[k]) && s[k] != '\n');
        assert(s[0] != '\n');
    }
}

// ---------------------------------------------------------------------------
// ASCII case folding, for case-insensitive command names
// ---------------------------------------------------------------------------

/// `c` with an ASCII lowercase letter replaced by its uppercase form.
pub open spec fn upper_char(c: char) -> char {
    if 'a' <= c && c <= 'z' {
        upper_letter(c)
    } else {
        c
    }
}

/// The uppercase form of an ASCII lowercase letter.
pub open spec fn upper_letter(c: char) -> char {
    if c == 'a' {
        'A'
    } else if c == 'b' {
        'B'
    } else if c == 'c' {
        'C'
    } else if c == 'd' {
        'D'
    } else if c == 'e' {
        'E'
    } else if c == 'f' {
        'F'
    } else if c == 'g' {
        'G'
    } else if c == 'h' {
        'H'
    } else if c == 'i' {
        'I'
    } else if c == 'j' {
        'J'
    } else if c == 'k' {
        'K'
    } else if c == 'l' {
        'L'
    } else if c == 'm' {
        'M'
    } else if c == 'n' {
        'N'
    } else if c == 'o' {
        'O'
    } else if c == 'p' {
        'P'
    } else if c == 'q' {
        'Q'
    } else if c == 'r' {
        'R'
    } else if c == 's' {
        'S'
    } else if c == 't' {
        'T'
    } else if c == 'u' {
        'U'
    } else if c == 'v' {
        'V'
    } else if c == 'w' {
        'W'
    } else if c == 'x' {
        'X'
    } else if c == 'y' {
        'Y'
    } else {
        'Z'
    }
}

/// `s` folded to ASCII uppercase.
pub open spec fn upper_seq(s: Seq<char>) -> Seq<char> {
    s.map_values(|c: char| upper_char(c))
}

fn to_upper_char(c: char) -> (r: char)
    ensures
        r == upper_char(c),
{
    if c == 'a' {
        'A'
    } else if c == 'b' {
        'B'
    } else if c == 'c' {
        'C'
    } else if c == 'd' {
        'D'
    } else if c == 'e' {
        'E'
    } else if c == 'f' {
        'F'
    } else if c == 'g' {
        'G'
    } else if c == 'h' {
        'H'
    } else if c == 'i' {
        'I'
    } else if c == 'j' {
        'J'
    } else if c == 'k' {
        'K'
    } else if c == 'l' {
        'L'
    } else if c == 'm' {
        'M'
    } else if c == 'n' {
        'N'
    } else if c == 'o' {
        'O'
    } else if c == 'p' {
        'P'
    } else if c == 'q' {
        'Q'
    } else if c == 'r' {
        'R'
    } else if c == 's' {
        'S'
    } else if c == 't' {
        'T'
    } else if c == 'u' {
        'U'
    } else if c == 'v' {
        'V'
    } else if c == 'w' {
        'W'
    } else if c == 'x' {
        'X'
    } else if c == 'y' {
        'Y'
    } else if c == 'z' {
        'Z'
    } else {
        c
    }
}

/// An ASCII character.
pub open spec fn ascii_char(c: char) -> bool {
    (c as u32) < 128
}

/// Every character is ASCII.
pub open spec fn all_ascii(s: Seq<char>) -> bool {
    forall|i: int| 0 <= i < s.len() ==> ascii_char(#[trigger] s[i])
}

/// What `str::to_uppercase` returns on text that is not all ASCII: a
/// function of the characters alone, left unspecified here.
pub uninterp spec fn unicode_upper_ext(s: Seq<char>) -> Seq<char>;

/// `s` folded to uppercase as `str::to_uppercase` folds it: on ASCII
/// text exactly the ASCII fold, elsewhere whatever the Unicode tables
/// say.
pub open spec fn unicode_upper(s: Seq<char>) -> Seq<char> {
    if all_ascii(s) {
        upper_seq(s)
    } else {
        unicode_upper_ext(s)
    }
}

/// Relies on `str::to_uppercase`: the fold depends on the characters
/// alone (no locale), and ASCII letters map exactly to their ASCII
/// uppercase counterparts.
#[verifier::external_body]
pub(crate) fn to_uppercase(s: &str) -> (r: String)
    ensures
        r@ == unicode_upper(s@),
        !all_ascii(s@) ==> r@ == unicode_upper_ext(s@),
{
    s.to_uppercase()
}

/// Whether two strings hold the same characters.
pub fn str_eq(a: &str, b: &str) -> (r: bool)
    ensures
        r == (a@ == b@),
{
    let n = a.unicode_len();
    if n != b.unicode_len() {
        return false;
    }
    let mut i: usize = 0;
    while i < n
        invariant
            0 <= i <= n,
            n == a@.len(),
            n == b@.len(),
            forall|k: int| 0 <= k < i ==> a@[k] == b@[k],
        decreases n - i,
    {
        if a.get_char(i) != b.get_char(i) {
            return false;
        }
        i = i + 1;
    }
    proof {
        assert(a@ =~= b@);
    }
    true
}

/// Whether `s`, folded to ASCII uppercase, equals `target`.
pub fn upper_eq(s: &str, target: &str) -> (r: bool)
    ensures
        r == (upper_seq(s@) == target@),
{
    let n = s.unicode_len();
    if n != target.unicode_len() {
        proof {
            assert(upper_seq(s@).len() == s@.len());
        }
        return false;
    }
    let mut i: usize = 0;
    while i < n
        invariant
            0 <= i <= n,
            n == s@.len(),
            n == target@.len(),
            forall|k: int| 0 <= k < i ==> upper_char(#[trigger] s@[k]) == target@[k],
        decreases n - i,
    {
        if to_upper_char(s.get_char(i)) != target.get_char(i) {
            proof {
                assert(upper_seq(s@)[i as int] != target@[i as int]);
            }
            return false;
        }
        i = i + 1;
    }
    proof {
        assert(upper_seq(s@) =~= target@);
    }
    true
}

} // verus!
