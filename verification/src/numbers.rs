//! Numeric text: the decimal grammar of 32-bit integers with parsing and
//! formatting proved inverse to each other, the grammar of floating-point
//! literals, and an exact integer square root.

use vstd::prelude::*;

verus! {

/// An ASCII decimal digit.
pub open spec fn is_digit_char(c: char) -> bool {
    ('0' as u32) <= (c as u32) && (c as u32) <= ('9' as u32)
}

/// The numeric value of an ASCII digit.
pub open spec fn digit_val(c: char) -> int {
    (c as u32) - ('0' as u32)
}

/// Every character of the sequence is an ASCII digit.
pub open spec fn all_digits(s: Seq<char>) -> bool {
    forall|i: int| 0 <= i < s.len() ==> is_digit_char(#[trigger] s[i])
}

/// The value of a digit string read most significant first.
pub open spec fn digits_val(s: Seq<char>) -> int
    decreases s.len(),
{
    if s.len() == 0 {
        0
    } else {
        digits_val(s.drop_last()) * 10 + digit_val(s.last())
    }
}

/// The integer denoted by a piece of text under the grammar of
/// `i32` parsing: an optional sign, then one or more ASCII digits, the
/// value within the 32-bit signed range; `None` where the text is not of
/// that shape.
pub open spec fn parsed_int(s: Seq<char>) -> Option<int> {
    let neg = s.len() > 0 && s[0] == '-';
    let signed = s.len() > 0 && (s[0] == '-' || s[0] == '+');
    let body = if signed {
        s.subrange(1, s.len() as int)
    } else {
        s
    };
    if body.len() > 0 && all_digits(body) {
        let v = if neg {
            -digits_val(body)
        } else {
            digits_val(body)
        };
        if -0x8000_0000 <= v && v <= 0x7fff_ffff {
            Some(v)
        } else {
            None
        }
    } else {
        None
    }
}

/// The text denotes a 32-bit signed integer.
pub open spec fn is_i32_text(s: Seq<char>) -> bool {
    parsed_int(s) is Some
}

proof fn lemma_digits_val_nonneg(s: Seq<char>)
    requires
        all_digits(s),
    ensures
        digits_val(s) >= 0,
    decreases s.len(),
{
    if s.len() > 0 {
        assert(all_digits(s.drop_last()));
        lemma_digits_val_nonneg(s.drop_last());
    }
}

/// Parses a 32-bit signed integer from text: an optional sign followed by
/// one or more ASCII digits, rejecting anything else and any value outside
/// the 32-bit range.
pub fn parse_i32(s: &str) -> (r: Option<i32>)
    ensures
        match r {
            Some(v) => parsed_int(s@) == Some(v as int),
            None => parsed_int(s@) is None,
        },
{
    let n = s.unicode_len();
    if n == 0 {
        return None;
    }
    let first = s.get_char(0);
    let neg = first == '-';
    let signed = first == '-' || first == '+';
    let start: usize = if signed {
        1
    } else {
        0
    };
    let ghost body = if signed {
        s@.subrange(1, s@.len() as int)
    } else {
        s@
    };
    if n == start {
        return None;
    }
    let mut acc: i64 = 0;
    let mut i: usize = start;
    while i < n
        invariant
            n == s@.len(),
            start <= i <= n,
            start <= 1,
            n > start,
            (start == 1) == (s@[0] == '-' || s@[0] == '+'),
            body == if start == 1 {
                s@.subrange(1, s@.len() as int)
            } else {
                s@
            },
            all_digits(body.subrange(0, i - start)),
            0 <= acc <= 0x8000_0000_i64 * 10 + 9,
            acc <= 0x8000_0000_i64 ==> acc == digits_val(body.subrange(0, i - start)),
            acc > 0x8000_0000_i64 ==> digits_val(body.subrange(0, i - start)) >= acc,
        decreases n - i,
    {
        let c = s.get_char(i);
        let u = c as u32;
        if u < '0' as u32 || u > '9' as u32 {
            proof {
                assert(body[i - start] == c);
                assert(!is_digit_char(c));
                assert(!all_digits(body));
                assert(parsed_int(s@) is None);
            }
            return None;
        }
        let d = (u - '0' as u32) as i64;
        proof {
            assert(body.subrange(0, i + 1 - start).drop_last() =~= body.subrange(0, i - start));
            assert(body.subrange(0, i + 1 - start).last() == c);
            if acc > 0x8000_0000_i64 {
                lemma_digits_val_nonneg(body.subrange(0, i - start));
            }
        }
        if acc <= 0x8000_0000_i64 {
            acc = acc * 10 + d;
        }
        i = i + 1;
    }
    proof {
        assert(body.subrange(0, n - start) =~= body);
        if acc > 0x8000_0000_i64 {
            assert(digits_val(body) >= acc);
        }
    }
    if neg {
        if acc <= 0x8000_0000_i64 {
            Some((-acc) as i32)
        } else {
            None
        }
    } else {
        if acc <= 0x7fff_ffff_i64 {
            Some(acc as i32)
        } else {
            None
        }
    }
}

/// The digit character for a value between zero and nine.
pub open spec fn digit_char(d: int) -> char {
    if d == 0 {
        '0'
    } else if d == 1 {
        '1'
    } else if d == 2 {
        '2'
    } else if d == 3 {
        '3'
    } else if d == 4 {
        '4'
    } else if d == 5 {
        '5'
    } else if d == 6 {
        '6'
    } else if d == 7 {
        '7'
    } else if d == 8 {
        '8'
    } else {
        '9'
    }
}

/// The canonical decimal text of a non-negative integer: no sign, no
/// leading zeros (except for zero itself).
pub open spec fn nat_text(n: int) -> Seq<char>
    recommends
        n >= 0,
    decreases n,
{
    if n < 10 {
        seq![digit_char(n)]
    } else {
        nat_text(n / 10).push(digit_char(n % 10))
    }
}

/// The canonical decimal text of an integer: a minus sign for negative
/// values, then the digits.
pub open spec fn int_text(v: int) -> Seq<char> {
    if v < 0 {
        seq!['-'] + nat_text(-v)
    } else {
        nat_text(v)
    }
}

proof fn lemma_nat_text_digits(n: int)
    requires
        n >= 0,
    ensures
        nat_text(n).len() > 0,
        all_digits(nat_text(n)),
        digits_val(nat_text(n)) == n,
    decreases n,
{
    if n < 10 {
        assert(nat_text(n) =~= seq![digit_char(n)]);
        assert(nat_text(n).drop_last() =~= Seq::<char>::empty());
        assert(nat_text(n).last() == digit_char(n));
        assert(digits_val(Seq::<char>::empty()) == 0);
        assert(is_digit_char(digit_char(n)));
        assert(digit_val(digit_char(n)) == n);
    } else {
        lemma_nat_text_digits(n / 10);
        let t = nat_text(n);
        assert(t.drop_last() =~= nat_text(n / 10));
        assert(t.last() == digit_char(n % 10));
        assert(is_digit_char(digit_char(n % 10)));
        assert(digit_val(digit_char(n % 10)) == n % 10);
        assert(forall|i: int| 0 <= i < t.len() ==> is_digit_char(#[trigger] t[i])) by {
            assert(forall|i: int| 0 <= i < t.len() - 1 ==> t[i] == nat_text(n / 10)[i]);
        }
    }
}

/// Formatting an integer yields text that parses back to the same value:
/// the canonical decimal form of every 32-bit integer is valid integer
/// text denoting that integer.
pub proof fn lemma_int_text_roundtrip(v: int)
    requires
        -0x8000_0000 <= v <= 0x7fff_ffff,
    ensures
        parsed_int(int_text(v)) == Some(v),
        is_i32_text(int_text(v)),
{
    if v < 0 {
        lemma_nat_text_digits(-v);
        let s = int_text(v);
        assert(s[0] == '-');
        assert(s.subrange(1, s.len() as int) =~= nat_text(-v));
    } else {
        lemma_nat_text_digits(v);
        let s = int_text(v);
        assert(is_digit_char(s[0]));
    }
}

/// The digit character of a value between zero and nine.
pub fn digit_to_char(d: u32) -> (c: char)
    requires
        d <= 9,
    ensures
        c == digit_char(d as int),
{
    if d == 0 {
        '0'
    } else if d == 1 {
        '1'
    } else if d == 2 {
        '2'
    } else if d == 3 {
        '3'
    } else if d == 4 {
        '4'
    } else if d == 5 {
        '5'
    } else if d == 6 {
        '6'
    } else if d == 7 {
        '7'
    } else if d == 8 {
        '8'
    } else {
        '9'
    }
}

/// Formats an integer as its canonical decimal text.
pub fn i32_to_text(x: i32) -> (s: String)
    ensures
        s@ == int_text(x as int),
{
    let neg = x < 0;
    let mut m: i64 = x as i64;
    if neg {
        m = -m;
    }
    let ghost m0 = m as int;
    let mut digits: Vec<char> = Vec::new();
    proof {
        assert(nat_text(m0) =~= nat_text(m0) + digits@.reverse());
    }
    while m >= 10
        invariant
            0 <= m <= 0x8000_0000_i64,
            nat_text(m0) =~= nat_text(m as int) + digits@.reverse(),
        decreases m,
    {
        let d = (m % 10) as u32;
        let c = digit_to_char(d);
        proof {
            assert(c == digit_char(m as int % 10));
            assert(nat_text(m as int) =~= nat_text(m as int / 10).push(digit_char(m as int % 10)));
            assert(digits@.push(c).reverse() =~= seq![c] + digits@.reverse());
            assert(nat_text(m as int / 10) + digits@.push(c).reverse() =~= nat_text(m as int)
                + digits@.reverse());
        }
        digits.push(c);
        m = m / 10;
    }
    let last = digit_to_char((m % 10) as u32);
    proof {
        assert(last == digit_char(m as int));
        assert(nat_text(m as int) =~= seq![last]);
        assert(digits@.push(last).reverse() =~= seq![last] + digits@.reverse());
        assert(nat_text(m0) =~= digits@.push(last).reverse());
    }
    digits.push(last);
    let mut word: Vec<char> = Vec::new();
    if neg {
        word.push('-');
    }
    let mut j: usize = digits.len();
    while j > 0
        invariant
            j <= digits@.len(),
            word@ =~= (if neg {
                seq!['-']
            } else {
                Seq::<char>::empty()
            }) + digits@.reverse().subrange(0, digits@.len() - j),
        decreases j,
    {
        j = j - 1;
        word.push(digits[j]);
        proof {
            assert(digits@.reverse()[digits@.len() - j - 1] == digits@[j as int]);
            assert(word@ =~= (if neg {
                seq!['-']
            } else {
                Seq::<char>::empty()
            }) + digits@.reverse().subrange(0, digits@.len() - j));
        }
    }
    proof {
        assert(digits@.reverse().subrange(0, digits@.len() as int) =~= digits@.reverse());
        if neg {
            assert(word@ =~= seq!['-'] + nat_text(m0));
        } else {
            assert(word@ =~= nat_text(m0));
        }
    }
    crate::text::word_to_string(&word)
}

/// The floor of the square root of a non-negative integer; zero for a
/// negative one.
pub fn int_sqrt_i32(x: i32) -> (r: i32)
    ensures
        x < 0 ==> r == 0,
        x >= 0 ==> 0 <= r && (r as int) * (r as int) <= x as int && (x as int) < ((r as int) + 1) * (
        (r as int) + 1),
{
    if x < 0 {
        return 0;
    }
    let xl = x as i64;
    let mut r: i64 = 0;
    loop
        invariant
            0 <= r <= 0xffff,
            xl == x as int,
            0 <= xl <= 0x7fff_ffff,
            r * r <= xl,
        ensures
            0 <= r <= 0xffff,
            r * r <= xl,
            (r + 1) * (r + 1) > xl,
        decreases xl - r * r,
    {
        proof {
            assert((r + 1) * (r + 1) <= 0x1_0000_0000_i64) by (nonlinear_arith)
                requires
                    0 <= r <= 0xffff,
            ;
        }
        let next = (r + 1) * (r + 1);
        if next > xl {
            break ;
        }
        proof {
            assert(r < 0xffff) by (nonlinear_arith)
                requires
                    (r + 1) * (r + 1) <= xl,
                    xl <= 0x7fff_ffff,
                    r >= 0,
            ;
            assert((r + 1) * (r + 1) > r * r) by (nonlinear_arith)
                requires
                    r >= 0,
            ;
        }
        r = r + 1;
    }
    proof {
        assert(r * r <= 0x7fff_ffff) by (nonlinear_arith)
            requires
                0 <= r,
                r * r <= xl,
                xl <= 0x7fff_ffff,
        ;
    }
    r as i32
}

/// Positions after the last index, or of the first exponent marker
/// (`e`/`E`) at or after `i`.
pub open spec fn exp_pos(b: Seq<char>, i: int) -> int
    recommends
        0 <= i <= b.len(),
    decreases b.len() - i,
{
    if i < 0 || i >= b.len() {
        b.len() as int
    } else if b[i] == 'e' || b[i] == 'E' {
        i
    } else {
        exp_pos(b, i + 1)
    }
}

/// Positions after the last index, or of the first decimal point at or
/// after `i`.
pub open spec fn dot_pos(b: Seq<char>, i: int) -> int
    recommends
        0 <= i <= b.len(),
    decreases b.len() - i,
{
    if i < 0 || i >= b.len() {
        b.len() as int
    } else if b[i] == '.' {
        i
    } else {
        dot_pos(b, i + 1)
    }
}

/// A mantissa: digits, optionally with one decimal point, with at least
/// one digit on one side of it.
pub open spec fn is_mantissa(m: Seq<char>) -> bool {
    let dp = dot_pos(m, 0);
    if dp == m.len() {
        m.len() > 0 && all_digits(m)
    } else {
        let left = m.subrange(0, dp);
        let right = m.subrange(dp + 1, m.len() as int);
        all_digits(left) && all_digits(right) && (left.len() > 0 || right.len() > 0)
            && dot_pos(m, dp + 1) == m.len()
    }
}

/// An exponent body: an optional sign, then one or more digits.
pub open spec fn is_exp_body(e: Seq<char>) -> bool {
    let body = if e.len() > 0 && (e[0] == '+' || e[0] == '-') {
        e.subrange(1, e.len() as int)
    } else {
        e
    };
    body.len() > 0 && all_digits(body)
}

/// One of `inf`, `infinity`, `nan`, in any letter case.
pub open spec fn is_special_float(b: Seq<char>) -> bool {
    ||| (b.len() == 3 && ci(b[0], 'i') && ci(b[1], 'n') && ci(b[2], 'f'))
    ||| (b.len() == 8 && ci(b[0], 'i') && ci(b[1], 'n') && ci(b[2], 'f') && ci(b[3], 'i') && ci(
        b[4],
        'n',
    ) && ci(b[5], 'i') && ci(b[6], 't') && ci(b[7], 'y'))
    ||| (b.len() == 3 && ci(b[0], 'n') && ci(b[1], 'a') && ci(b[2], 'n'))
}

/// Case-insensitive match of a character against a lower-case letter.
pub open spec fn ci(c: char, l: char) -> bool {
    c as u32 == l as u32 || c as u32 == l as u32 - 0x20
}

/// The grammar of floating-point literals: an optional sign, then either
/// one of the special words (`inf`, `infinity`, `nan`, case-insensitive)
/// or a mantissa with an optional exponent part.
pub open spec fn is_f64_text(s: Seq<char>) -> bool {
    let b = if s.len() > 0 && (s[0] == '+' || s[0] == '-') {
        s.subrange(1, s.len() as int)
    } else {
        s
    };
    ||| is_special_float(b)
    ||| {
        let p = exp_pos(b, 0);
        &&& is_mantissa(b.subrange(0, p))
        &&& (p == b.len() || is_exp_body(b.subrange(p + 1, b.len() as int)))
    }
}

proof fn lemma_dot_pos_beyond(m: Seq<char>, i: int)
    requires
        0 <= i <= m.len(),
        forall|j: int| i <= j < m.len() ==> m[j] != '.',
    ensures
        dot_pos(m, i) == m.len(),
    decreases m.len() - i,
{
    if i < m.len() {
        lemma_dot_pos_beyond(m, i + 1);
    }
}

/// Case-insensitive match of a character against a lower-case letter.
fn ci_eq(c: char, l: char) -> (r: bool)
    requires
        ('a' as u32) <= (l as u32) <= ('z' as u32),
    ensures
        r == ci(c, l),
{
    let cu = c as u32;
    let lu = l as u32;
    cu == lu || cu == lu - 0x20
}

/// Decides the grammar of floating-point literals.
#[verifier::rlimit(50)]
pub fn is_float_text(s: &str) -> (r: bool)
    ensures
        r == is_f64_text(s@),
{
    let n = s.unicode_len();
    let start: usize = if n > 0 && {
        let c0 = s.get_char(0);
        c0 == '+' || c0 == '-'
    } {
        1
    } else {
        0
    };
    let mut body: Vec<char> = Vec::new();
    let mut i: usize = start;
    while i < n
        invariant
            start <= i <= n,
            n == s@.len(),
            body@ =~= s@.subrange(start as int, i as int),
        decreases n - i,
    {
        body.push(s.get_char(i));
        proof {
            assert(body@ =~= s@.subrange(start as int, i + 1 as int));
        }
        i = i + 1;
    }
    let ghost b = if start == 1 {
        s@.subrange(1, s@.len() as int)
    } else {
        s@
    };
    proof {
        assert(body@ =~= b);
    }
    let bn = body.len();
    // the special words, in any letter case
    if bn == 3 && ci_eq(body[0], 'i') && ci_eq(body[1], 'n') && ci_eq(body[2], 'f') {
        return true;
    }
    if bn == 3 && ci_eq(body[0], 'n') && ci_eq(body[1], 'a') && ci_eq(body[2], 'n') {
        return true;
    }
    if bn == 8 && ci_eq(body[0], 'i') && ci_eq(body[1], 'n') && ci_eq(body[2], 'f') && ci_eq(
        body[3],
        'i',
    ) && ci_eq(body[4], 'n') && ci_eq(body[5], 'i') && ci_eq(body[6], 't') && ci_eq(body[7], 'y') {
        return true;
    }
    proof {
        assert(!is_special_float(b));
    }
    // find the exponent marker
    let mut p: usize = 0;
    while p < bn && body[p] != 'e' && body[p] != 'E'
        invariant
            p <= bn,
            bn == b.len(),
            body@ == b,
            exp_pos(b, 0) == exp_pos(b, p as int),
        decreases bn - p,
    {
        p = p + 1;
    }
    proof {
        assert(exp_pos(b, 0) == p);
    }
    let ghost mant = b.subrange(0, p as int);
    // find the decimal point within the mantissa
    let mut dp: usize = 0;
    while dp < p && body[dp] != '.'
        invariant
            dp <= p <= bn,
            bn == b.len(),
            body@ == b,
            mant == b.subrange(0, p as int),
            dot_pos(mant, 0) == dot_pos(mant, dp as int),
        decreases p - dp,
    {
        proof {
            assert(mant[dp as int] == b[dp as int]);
        }
        dp = dp + 1;
    }
    proof {
        if dp < p {
            assert(mant[dp as int] == b[dp as int]);
        }
        assert(dot_pos(mant, 0) == dp);
    }
    let mantissa_ok: bool;
    if dp == p {
        // no decimal point: one or more digits
        mantissa_ok = p > 0 && digits_only(&body, 0, p);
    } else {
        let left_ok = digits_only(&body, 0, dp);
        let right_ok = digits_only(&body, dp + 1, p);
        mantissa_ok = left_ok && right_ok && (dp > 0 || dp + 1 < p);
        proof {
            let left = mant.subrange(0, dp as int);
            let right = mant.subrange(dp + 1, mant.len() as int);
            assert(left =~= b.subrange(0, dp as int));
            assert(right =~= b.subrange(dp + 1, p as int));
            if left_ok && right_ok {
                assert(all_digits(left));
                assert(all_digits(right));
                assert(forall|j: int| dp + 1 <= j < mant.len() ==> mant[j] != '.') by {
                    assert(forall|j: int|
                        dp + 1 <= j < mant.len() ==> mant[j] == right[j - dp - 1]
                            && is_digit_char(right[j - dp - 1]));
                }
                lemma_dot_pos_beyond(mant, dp + 1 as int);
            } else {
                if !left_ok {
                    assert(!all_digits(left));
                }
                if !right_ok {
                    assert(!all_digits(right));
                }
            }
        }
    }
    if !mantissa_ok {
        return false;
    }
    if p == bn {
        return true;
    }
    // the exponent body: an optional sign, then one or more digits
    let ghost e = b.subrange(p + 1, b.len() as int);
    let estart: usize = if p + 1 < bn && {
        let c = body[p + 1];
        c == '+' || c == '-'
    } {
        p + 2
    } else {
        p + 1
    };
    let r = estart < bn && digits_only(&body, estart, bn);
    proof {
        let ebody = if e.len() > 0 && (e[0] == '+' || e[0] == '-') {
            e.subrange(1, e.len() as int)
        } else {
            e
        };
        assert(ebody =~= b.subrange(estart as int, bn as int));
        if r {
            assert(all_digits(ebody));
            assert(ebody.len() > 0);
        } else {
            if estart < bn {
                assert(!all_digits(ebody));
            } else {
                assert(ebody.len() == 0);
            }
        }
        assert(r == is_exp_body(e));
    }
    r
}

/// Every character in the half-open index range is an ASCII digit.
fn digits_only(body: &Vec<char>, from: usize, to: usize) -> (r: bool)
    requires
        from <= to <= body@.len(),
    ensures
        r == all_digits(body@.subrange(from as int, to as int)),
{
    let mut i: usize = from;
    while i < to
        invariant
            from <= i <= to <= body@.len(),
            forall|j: int| from <= j < i ==> is_digit_char(#[trigger] body@[j]),
        decreases to - i,
    {
        let u = body[i] as u32;
        if u < '0' as u32 || u > '9' as u32 {
            proof {
                let sub = body@.subrange(from as int, to as int);
                assert(sub[i - from] == body@[i as int]);
            }
            return false;
        }
        i = i + 1;
    }
    proof {
        let sub = body@.subrange(from as int, to as int);
        assert(forall|j: int| 0 <= j < sub.len() ==> is_digit_char(#[trigger] sub[j]));
    }
    true
}

} // verus!
