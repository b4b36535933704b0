//! Character-level rules for cell tokens: trimming, integer and float syntax,
//! and decimal rendering of integers.

use vstd::prelude::*;

verus! {

/// Characters with the Unicode White_Space property.
pub open spec fn is_white_space(c: char) -> bool {
    let v = c as u32;
    ||| 9 <= v <= 13
    ||| v == 32
    ||| v == 0x85
    ||| v == 0xA0
    ||| v == 0x1680
    ||| 0x2000 <= v <= 0x200A
    ||| v == 0x2028
    ||| v == 0x2029
    ||| v == 0x202F
    ||| v == 0x205F
    ||| v == 0x3000
}

pub open spec fn trim_start(s: Seq<char>) -> Seq<char>
    decreases s.len(),
{
    if s.len() > 0 && is_white_space(s[0]) {
        trim_start(s.drop_first())
    } else {
        s
    }
}

pub open spec fn trim_end(s: Seq<char>) -> Seq<char>
    decreases s.len(),
{
    if s.len() > 0 && is_white_space(s.last()) {
        trim_end(s.drop_last())
    } else {
        s
    }
}

/// `s` without its leading and trailing white space.
pub open spec fn trimmed(s: Seq<char>) -> Seq<char> {
    trim_end(trim_start(s))
}

pub open spec fn is_digit(c: char) -> bool {
    48 <= c as u32 <= 57
}

pub open spec fn digit_value(c: char) -> int {
    c as u32 - 48
}

pub open spec fn digit_char(d: int) -> char {
    ((d + 48) as u32) as char
}

pub open spec fn all_digits(s: Seq<char>) -> bool {
    forall|i: int| 0 <= i < s.len() ==> #[trigger] is_digit(s[i])
}

/// The number that a run of decimal digits denotes.
pub open spec fn digits_value(s: Seq<char>) -> int
    decreases s.len(),
{
    if s.len() == 0 {
        0
    } else {
        digits_value(s.drop_last()) * 10 + digit_value(s.last())
    }
}

pub open spec fn is_sign(c: char) -> bool {
    c == '+' || c == '-'
}

/// An optional sign followed by at least one digit, and the number it denotes.
pub open spec fn int_syntax_value(t: Seq<char>) -> Option<int> {
    if t.len() > 0 && is_sign(t[0]) {
        let d = t.drop_first();
        if d.len() > 0 && all_digits(d) {
            Some(
                if t[0] == '-' {
                    -digits_value(d)
                } else {
                    digits_value(d)
                },
            )
        } else {
            None
        }
    } else if t.len() > 0 && all_digits(t) {
        Some(digits_value(t))
    } else {
        None
    }
}

/// The `i64` that a token denotes: integer syntax with a value in range.
pub open spec fn int_of(t: Seq<char>) -> Option<i64> {
    match int_syntax_value(t) {
        Some(v) => if i64::MIN <= v <= i64::MAX {
            Some(v as i64)
        } else {
            None
        },
        None => None,
    }
}

/// Index of the first character equal to `a` or `b`; the length if there is none.
pub open spec fn first_index(s: Seq<char>, a: char, b: char) -> int
    decreases s.len(),
{
    if s.len() == 0 {
        0
    } else if s[0] == a || s[0] == b {
        0
    } else {
        1 + first_index(s.drop_first(), a, b)
    }
}

pub open spec fn ascii_lower(c: char) -> char {
    if 65 <= c as u32 <= 90 {
        ((c as u32) + 32) as char
    } else {
        c
    }
}

pub open spec fn lowered(s: Seq<char>) -> Seq<char> {
    s.map_values(|c: char| ascii_lower(c))
}

/// `inf`, `infinity` or `nan`, in any case.
pub open spec fn is_float_word(s: Seq<char>) -> bool {
    let l = lowered(s);
    l == seq!['i', 'n', 'f'] || l == seq!['i', 'n', 'f', 'i', 'n', 'i', 't', 'y'] || l == seq![
        'n',
        'a',
        'n',
    ]
}

/// Digits with at most one point, holding at least one digit.
pub open spec fn is_mantissa(m: Seq<char>) -> bool {
    let p = first_index(m, '.', '.');
    &&& all_digits(m.take(p))
    &&& p < m.len() ==> all_digits(m.skip(p + 1))
    &&& p < m.len() ==> m.len() >= 2
    &&& m.len() >= 1
}

/// A mantissa, then optionally `e` or `E` and an integer exponent.
pub open spec fn is_float_number(r: Seq<char>) -> bool {
    let k = first_index(r, 'e', 'E');
    &&& is_mantissa(r.take(k))
    &&& k < r.len() ==> int_syntax_value(r.skip(k + 1)) is Some
}

/// The syntax of a floating-point number: an optional sign, then a word or a number.
pub open spec fn float_syntax(t: Seq<char>) -> bool {
    let r = if t.len() > 0 && is_sign(t[0]) {
        t.drop_first()
    } else {
        t
    };
    is_float_word(r) || is_float_number(r)
}

/// Decimal digits of a natural number, without leading zeros.
pub open spec fn nat_decimal(n: nat) -> Seq<char>
    decreases n,
{
    if n < 10 {
        seq![digit_char(n as int)]
    } else {
        nat_decimal(n / 10).push(digit_char((n % 10) as int))
    }
}

/// Decimal text of an integer, with a minus sign when it is negative.
pub open spec fn decimal_text(i: int) -> Seq<char> {
    if i < 0 {
        seq!['-'] + nat_decimal((-i) as nat)
    } else {
        nat_decimal(i as nat)
    }
}

/// Relies on `str::trim`: the slice without leading and trailing White_Space characters.
#[verifier::external_body]
pub(crate) fn trim_str(s: &str) -> (r: &str)
    ensures
        r@ == trimmed(s@),
{
    s.trim()
}

/// Relies on `String::push`: appends one character.
#[verifier::external_body]
pub(crate) fn push_char(s: &mut String, c: char)
    ensures
        final(s)@ == old(s)@.push(c),
{
    s.push(c)
}

/// The characters of `s`, in order.
pub fn chars_of(s: &str) -> (r: Vec<char>)
    ensures
        r@ == s@,
{
    let n = s.unicode_len();
    let mut v: Vec<char> = Vec::new();
    let mut i: usize = 0;
    while i < n
        invariant
            i <= n,
            n == s@.len(),
            v@ == s@.take(i as int),
        decreases n - i,
    {
        let c = s.get_char(i);
        v.push(c);
        i += 1;
        assert(v@ =~= s@.take(i as int));
    }
    assert(v@ =~= s@);
    v
}

/// A string holding the characters of `v`.
pub fn string_of(v: &Vec<char>) -> (r: String)
    ensures
        r@ == v@,
{
    let mut s = String::new();
    let mut i: usize = 0;
    while i < v.len()
        invariant
            i <= v.len(),
            s@ == v@.take(i as int),
        decreases v.len() - i,
    {
        push_char(&mut s, v[i]);
        i += 1;
        assert(s@ =~= v@.take(i as int));
    }
    assert(s@ =~= v@);
    s
}

/// Appends the characters of `t` to `s`.
pub fn push_str(s: &mut String, t: &str)
    ensures
        final(s)@ == old(s)@ + t@,
{
    let v = chars_of(t);
    let ghost start = s@;
    let mut i: usize = 0;
    while i < v.len()
        invariant
            i <= v.len(),
            v@ == t@,
            s@ == start + v@.take(i as int),
        decreases v.len() - i,
    {
        push_char(s, v[i]);
        i += 1;
        assert(s@ =~= start + v@.take(i as int));
    }
    assert(v@.take(v.len() as int) =~= t@);
}

pub fn is_digit_char(c: char) -> (r: bool)
    ensures
        r == is_digit(c),
{
    '0' <= c && c <= '9'
}

/// Whether `v[lo..hi]` is all digits.
pub fn all_digits_in(v: &Vec<char>, lo: usize, hi: usize) -> (r: bool)
    requires
        lo <= hi <= v.len(),
    ensures
        r == all_digits(v@.subrange(lo as int, hi as int)),
{
    let mut i = lo;
    while i < hi
        invariant
            lo <= i <= hi,
            hi <= v.len(),
            all_digits(v@.subrange(lo as int, i as int)),
        decreases hi - i,
    {
        if !is_digit_char(v[i]) {
            assert(!is_digit(v@.subrange(lo as int, hi as int)[i - lo]));
            return false;
        }
        i += 1;
        assert forall|j: int| 0 <= j < i - lo implies #[trigger] is_digit(
            v@.subrange(lo as int, i as int)[j],
        ) by {
            if j < i - 1 - lo {
                assert(v@.subrange(lo as int, (i - 1) as int)[j] == v@[lo + j]);
            }
        }
    }
    true
}

proof fn lemma_digits_value_push(s: Seq<char>, c: char)
    ensures
        digits_value(s.push(c)) == digits_value(s) * 10 + digit_value(c),
{
    assert(s.push(c).drop_last() =~= s);
}

/// The limit on the magnitude of an `i64`: 2^63.
pub const MAGNITUDE_LIMIT: u128 = 9223372036854775808;

/// Reads `v[lo..hi]` as an optionally signed integer.
pub fn parse_int_in(v: &Vec<char>, lo: usize, hi: usize) -> (r: Option<i64>)
    requires
        lo <= hi <= v.len(),
    ensures
        r == int_of(v@.subrange(lo as int, hi as int)),
{
    let ghost t = v@.subrange(lo as int, hi as int);
    if lo == hi {
        return None;
    }
    let mut start = lo;
    let mut negative = false;
    if v[lo] == '+' || v[lo] == '-' {
        negative = v[lo] == '-';
        start = lo + 1;
    }
    if start == hi {
        return None;
    }
    let ghost d = v@.subrange(start as int, hi as int);
    proof {
        if start > lo {
            assert(d =~= t.drop_first());
        } else {
            assert(d =~= t);
        }
    }
    // `acc` is the value of the digits read so far, held at MAGNITUDE_LIMIT + 1 once it passes it.
    let mut acc: u128 = 0;
    let mut i = start;
    while i < hi
        invariant
            lo <= start <= i <= hi,
            start < hi,
            hi <= v.len(),
            t == v@.subrange(lo as int, hi as int),
            d == v@.subrange(start as int, hi as int),
            start > lo ==> d == t.drop_first() && is_sign(t[0]) && negative == (t[0] == '-'),
            start == lo ==> d == t && !is_sign(t[0]) && !negative,
            all_digits(v@.subrange(start as int, i as int)),
            acc as int == if digits_value(v@.subrange(start as int, i as int)) <= MAGNITUDE_LIMIT {
                digits_value(v@.subrange(start as int, i as int))
            } else {
                MAGNITUDE_LIMIT + 1
            },
            digits_value(v@.subrange(start as int, i as int)) >= 0,
        decreases hi - i,
    {
        let c = v[i];
        if !is_digit_char(c) {
            assert(!is_digit(d[i - start]));
            return None;
        }
        let ghost prev = v@.subrange(start as int, i as int);
        let ghost dv = digits_value(prev);
        assert(v@.subrange(start as int, i + 1) =~= prev.push(c));
        proof {
            lemma_digits_value_push(prev, c);
        }
        let digit: u128 = (c as u32 - 48) as u128;
        if acc <= MAGNITUDE_LIMIT {
            acc = acc * 10 + digit;
            if acc > MAGNITUDE_LIMIT {
                acc = MAGNITUDE_LIMIT + 1;
            }
        } else {
            assert(dv * 10 + digit_value(c) > MAGNITUDE_LIMIT) by (nonlinear_arith)
                requires
                    dv > MAGNITUDE_LIMIT,
                    digit_value(c) >= 0,
            ;
        }
        i += 1;
        assert forall|j: int| 0 <= j < i - start implies #[trigger] is_digit(
            v@.subrange(start as int, i as int)[j],
        ) by {
            if j < i - 1 - start {
                assert(prev[j] == v@[start + j]);
            }
        }
    }
    assert(v@.subrange(start as int, i as int) =~= d);
    if negative {
        if acc > MAGNITUDE_LIMIT {
            None
        } else if acc == MAGNITUDE_LIMIT {
            Some(i64::MIN)
        } else {
            Some(-(acc as i64))
        }
    } else {
        if acc >= MAGNITUDE_LIMIT {
            None
        } else {
            Some(acc as i64)
        }
    }
}

proof fn lemma_first_index_at(s: Seq<char>, a: char, b: char, k: int)
    requires
        0 <= k <= s.len(),
        forall|j: int| 0 <= j < k ==> s[j] != a && s[j] != b,
        k < s.len() ==> (s[k] == a || s[k] == b),
    ensures
        first_index(s, a, b) == k,
    decreases s.len(),
{
    if s.len() > 0 && k > 0 {
        assert(s[0] != a && s[0] != b);
        assert forall|j: int| 0 <= j < k - 1 implies s.drop_first()[j] != a && s.drop_first()[j]
            != b by {
            assert(s.drop_first()[j] == s[j + 1]);
        }
        lemma_first_index_at(s.drop_first(), a, b, k - 1);
    }
}

/// Index in `v[lo..hi]`, counted from `lo`, of the first `a` or `b`.
pub fn first_index_in(v: &Vec<char>, lo: usize, hi: usize, a: char, b: char) -> (r: usize)
    requires
        lo <= hi <= v.len(),
    ensures
        r == lo + first_index(v@.subrange(lo as int, hi as int), a, b),
        lo <= r <= hi,
{
    let ghost s = v@.subrange(lo as int, hi as int);
    let mut i = lo;
    while i < hi
        invariant
            lo <= i <= hi,
            hi <= v.len(),
            s == v@.subrange(lo as int, hi as int),
            forall|j: int| 0 <= j < i - lo ==> s[j] != a && s[j] != b,
        decreases hi - i,
    {
        if v[i] == a || v[i] == b {
            proof {
                lemma_first_index_at(s, a, b, i - lo);
            }
            return i;
        }
        i += 1;
    }
    proof {
        lemma_first_index_at(s, a, b, i - lo);
    }
    i
}

/// Whether `v[lo..hi]` has integer syntax (any magnitude).
pub fn int_syntax_in(v: &Vec<char>, lo: usize, hi: usize) -> (r: bool)
    requires
        lo <= hi <= v.len(),
    ensures
        r == (int_syntax_value(v@.subrange(lo as int, hi as int)) is Some),
{
    let ghost t = v@.subrange(lo as int, hi as int);
    if lo == hi {
        return false;
    }
    if v[lo] == '+' || v[lo] == '-' {
        assert(v@.subrange(lo + 1, hi as int) =~= t.drop_first());
        lo + 1 < hi && all_digits_in(v, lo + 1, hi)
    } else {
        all_digits_in(v, lo, hi)
    }
}

pub fn lower_char(c: char) -> (r: char)
    ensures
        r == ascii_lower(c),
{
    if 'A' <= c && c <= 'Z' {
        ((c as u32 + 32) as u8) as char
    } else {
        c
    }
}

/// Whether `v[lo..hi]`, lowered, is `w`.
fn lowered_equals(v: &Vec<char>, lo: usize, hi: usize, w: &Vec<char>) -> (r: bool)
    requires
        lo <= hi <= v.len(),
    ensures
        r == (lowered(v@.subrange(lo as int, hi as int)) == w@),
{
    let ghost s = v@.subrange(lo as int, hi as int);
    if hi - lo != w.len() {
        assert(lowered(s).len() != w@.len());
        return false;
    }
    let mut i: usize = 0;
    while i < w.len()
        invariant
            i <= w.len(),
            w.len() == hi - lo,
            lo <= hi <= v.len(),
            s == v@.subrange(lo as int, hi as int),
            forall|j: int| 0 <= j < i ==> ascii_lower(s[j]) == w@[j],
        decreases w.len() - i,
    {
        if lower_char(v[lo + i]) != w[i] {
            assert(lowered(s)[i as int] != w@[i as int]);
            return false;
        }
        i += 1;
    }
    assert(lowered(s) =~= w@);
    true
}

/// Whether `v[lo..hi]` is a mantissa.
fn mantissa_in(v: &Vec<char>, lo: usize, hi: usize) -> (r: bool)
    requires
        lo <= hi <= v.len(),
    ensures
        r == is_mantissa(v@.subrange(lo as int, hi as int)),
{
    let ghost m = v@.subrange(lo as int, hi as int);
    let p = first_index_in(v, lo, hi, '.', '.');
    assert(m.take(p - lo) =~= v@.subrange(lo as int, p as int));
    if p < hi {
        assert(m.skip(p - lo + 1) =~= v@.subrange(p + 1, hi as int));
        hi - lo >= 2 && all_digits_in(v, lo, p) && all_digits_in(v, p + 1, hi)
    } else {
        hi - lo >= 1 && all_digits_in(v, lo, p)
    }
}

/// Whether `v` has the syntax of a floating-point number.
pub fn float_syntax_exec(v: &Vec<char>) -> (r: bool)
    ensures
        r == float_syntax(v@),
{
    let n = v.len();
    let start: usize = if n > 0 && (v[0] == '+' || v[0] == '-') {
        1
    } else {
        0
    };
    let ghost rest = v@.subrange(start as int, n as int);
    assert(rest =~= if v@.len() > 0 && is_sign(v@[0]) {
        v@.drop_first()
    } else {
        v@
    });
    let inf = vec!['i', 'n', 'f'];
    let infinity = vec!['i', 'n', 'f', 'i', 'n', 'i', 't', 'y'];
    let nan = vec!['n', 'a', 'n'];
    assert(inf@ =~= seq!['i', 'n', 'f']);
    assert(infinity@ =~= seq!['i', 'n', 'f', 'i', 'n', 'i', 't', 'y']);
    assert(nan@ =~= seq!['n', 'a', 'n']);
    if lowered_equals(v, start, n, &inf) || lowered_equals(v, start, n, &infinity)
        || lowered_equals(v, start, n, &nan) {
        return true;
    }
    let k = first_index_in(v, start, n, 'e', 'E');
    assert(rest.take(k - start) =~= v@.subrange(start as int, k as int));
    if !mantissa_in(v, start, k) {
        return false;
    }
    if k < n {
        assert(rest.skip(k - start + 1) =~= v@.subrange(k + 1, n as int));
        int_syntax_in(v, k + 1, n)
    } else {
        true
    }
}

/// Appends the decimal digits of `n`.
fn push_nat_decimal(s: &mut String, n: u64)
    ensures
        final(s)@ == old(s)@ + nat_decimal(n as nat),
    decreases n,
{
    if n >= 10 {
        push_nat_decimal(s, n / 10);
    }
    let d = (n % 10) as u8;
    let c = ((d + 48) as u8) as char;
    push_char(s, c);
    proof {
        if n >= 10 {
            assert(old(s)@ + nat_decimal(n as nat) =~= old(s)@ + nat_decimal((n / 10) as nat) + seq![
                c,
            ]);
        } else {
            assert(old(s)@ + nat_decimal(n as nat) =~= old(s)@.push(c));
        }
    }
}

/// The decimal text of `i`.
pub fn int_text(i: i64) -> (r: String)
    ensures
        r@ == decimal_text(i as int),
{
    let mut s = String::new();
    if i < 0 {
        push_char(&mut s, '-');
        let magnitude: u64 = (0 - (i as i128)) as u64;
        push_nat_decimal(&mut s, magnitude);
    } else {
        push_nat_decimal(&mut s, i as u64);
    }
    s
}

// Lemmas on these definitions.
pub proof fn lemma_trim_start_head(s: Seq<char>)
    ensures
        trim_start(s).len() == 0 || !is_white_space(trim_start(s)[0]),
        trim_start(s).len() <= s.len(),
    decreases s.len(),
{
    if s.len() > 0 && is_white_space(s[0]) {
        lemma_trim_start_head(s.drop_first());
    }
}

pub proof fn lemma_trim_end_prefix(s: Seq<char>)
    ensures
        trim_end(s).len() <= s.len(),
        trim_end(s) == s.take(trim_end(s).len() as int),
        trim_end(s).len() == 0 || !is_white_space(trim_end(s).last()),
    decreases s.len(),
{
    if s.len() > 0 && is_white_space(s.last()) {
        lemma_trim_end_prefix(s.drop_last());
        assert(s.drop_last().take(trim_end(s).len() as int) =~= s.take(trim_end(s).len() as int));
    } else {
        assert(s.take(s.len() as int) =~= s);
    }
}

/// A trimmed text is its own trim.
pub proof fn lemma_trimmed_idempotent(s: Seq<char>)
    ensures
        trimmed(trimmed(s)) == trimmed(s),
{
    let x = trim_start(s);
    let u = trimmed(s);
    lemma_trim_start_head(s);
    lemma_trim_end_prefix(x);
    if u.len() > 0 {
        assert(u[0] == x[0]);
        assert(trim_start(u) == u);
        assert(trim_end(u) == u);
    } else {
        assert(trim_start(u) == u);
        assert(trim_end(u) == u);
    }
}

/// A text whose ends are not white space is its own trim.
pub proof fn lemma_trimmed_fixed(s: Seq<char>)
    requires
        s.len() > 0,
        !is_white_space(s[0]),
        !is_white_space(s.last()),
    ensures
        trimmed(s) == s,
{
    assert(trim_start(s) == s);
    assert(trim_end(s) == s);
}

proof fn lemma_nat_decimal(n: nat)
    ensures
        nat_decimal(n).len() > 0,
        all_digits(nat_decimal(n)),
        digits_value(nat_decimal(n)) == n,
    decreases n,
{
    if n >= 10 {
        lemma_nat_decimal(n / 10);
        let p = nat_decimal(n / 10);
        let c = digit_char((n % 10) as int);
        lemma_digits_value_push(p, c);
        assert(digit_value(c) == n % 10);
        assert((n / 10) * 10 + n % 10 == n);
        assert(nat_decimal(n) == p.push(c));
        assert(digits_value(nat_decimal(n)) == digits_value(p) * 10 + digit_value(c));
        assert forall|i: int| 0 <= i < p.push(c).len() implies #[trigger] is_digit(
            p.push(c)[i],
        ) by {
            if i < p.len() {
                assert(is_digit(p[i]));
            }
        }
    } else {
        assert(digit_value(digit_char(n as int)) == n);
        assert(digits_value(nat_decimal(n)) == digits_value(seq![digit_char(n as int)]));
        assert(seq![digit_char(n as int)].drop_last() =~= Seq::<char>::empty());
        assert(digits_value(seq![digit_char(n as int)]) == digits_value(Seq::<char>::empty()) * 10
            + digit_value(digit_char(n as int)));
    }
}

/// Decimal text reads back as the integer it was made from, and has no white space at its ends.
pub proof fn lemma_decimal_text_round_trip(i: i64)
    ensures
        int_of(decimal_text(i as int)) == Some(i),
        trimmed(decimal_text(i as int)) == decimal_text(i as int),
        decimal_text(i as int).len() > 0,
{
    let t = decimal_text(i as int);
    if i < 0 {
        let m = nat_decimal((-i) as nat);
        lemma_nat_decimal((-i) as nat);
        assert(t.drop_first() =~= m);
        assert(is_digit(m[0]));
        assert(is_digit(m.last()));
        assert(t.last() == m.last());
        lemma_trimmed_fixed(t);
    } else {
        lemma_nat_decimal(i as nat);
        assert(is_digit(t[0]));
        assert(is_digit(t.last()));
        lemma_trimmed_fixed(t);
    }
}


/// Every character of `s` is white space.
pub open spec fn all_white(s: Seq<char>) -> bool {
    forall|i: int| 0 <= i < s.len() ==> is_white_space(#[trigger] s[i])
}

proof fn lemma_trim_start_white_prefix(w: Seq<char>, x: Seq<char>)
    requires
        all_white(w),
    ensures
        trim_start(w + x) == trim_start(x),
    decreases w.len(),
{
    if w.len() > 0 {
        assert((w + x)[0] == w[0]);
        assert((w + x).drop_first() =~= w.drop_first() + x);
        assert forall|i: int| 0 <= i < w.drop_first().len() implies is_white_space(
            #[trigger] w.drop_first()[i],
        ) by {
            assert(w.drop_first()[i] == w[i + 1]);
        }
        lemma_trim_start_white_prefix(w.drop_first(), x);
    } else {
        assert(w + x =~= x);
    }
}

proof fn lemma_trim_end_white_suffix(x: Seq<char>, w: Seq<char>)
    requires
        all_white(w),
    ensures
        trim_end(x + w) == trim_end(x),
    decreases w.len(),
{
    if w.len() > 0 {
        assert((x + w).last() == w.last());
        assert((x + w).drop_last() =~= x + w.drop_last());
        assert forall|i: int| 0 <= i < w.drop_last().len() implies is_white_space(
            #[trigger] w.drop_last()[i],
        ) by {
            assert(w.drop_last()[i] == w[i]);
        }
        lemma_trim_end_white_suffix(x, w.drop_last());
    } else {
        assert(x + w =~= x);
    }
}

proof fn lemma_trim_start_white_suffix(x: Seq<char>, w: Seq<char>)
    requires
        all_white(w),
    ensures
        trim_start(x + w) == if trim_start(x).len() > 0 {
            trim_start(x) + w
        } else {
            Seq::<char>::empty()
        },
    decreases x.len(),
{
    if x.len() == 0 {
        assert(x + w =~= w);
        lemma_trim_start_white_prefix(w, Seq::<char>::empty());
        assert(w + Seq::<char>::empty() =~= w);
    } else if is_white_space(x[0]) {
        assert((x + w)[0] == x[0]);
        assert((x + w).drop_first() =~= x.drop_first() + w);
        lemma_trim_start_white_suffix(x.drop_first(), w);
    } else {
        assert((x + w)[0] == x[0]);
    }
}

/// White space around a text does not change its trim.
pub proof fn lemma_trimmed_surrounded(w1: Seq<char>, s: Seq<char>, w2: Seq<char>)
    requires
        all_white(w1),
        all_white(w2),
    ensures
        trimmed(w1 + s + w2) == trimmed(s),
{
    assert(w1 + s + w2 =~= w1 + (s + w2));
    lemma_trim_start_white_prefix(w1, s + w2);
    lemma_trim_start_white_suffix(s, w2);
    if trim_start(s).len() > 0 {
        lemma_trim_end_white_suffix(trim_start(s), w2);
    }
}

} // verus!
