//! Whole numbers as decimal text.
use crate::text::{chars_of, is_space, is_word};
use vstd::prelude::*;

verus! {

/// Whether `c` is one of `0` to `9`.
pub open spec fn is_digit(c: char) -> bool {
    '0' <= c <= '9'
}

/// The character of a digit.
pub open spec fn digit_char(d: int) -> char {
    (48 + d) as char
}

/// Whether `s` is made of digits alone, and of at least one.
pub open spec fn all_digits(s: Seq<char>) -> bool {
    &&& s.len() > 0
    &&& forall|i: int| 0 <= i < s.len() ==> is_digit(#[trigger] s[i])
}

/// The number that a row of digits stands for.
pub open spec fn digits_value(s: Seq<char>) -> int
    decreases s.len(),
{
    if s.len() == 0 {
        0
    } else {
        10 * digits_value(s.drop_last()) + (s.last() as int - 48)
    }
}

/// The number that `s` stands for: digits, after `+` or, for a signed type, `-`.
pub open spec fn int_value(s: Seq<char>, signed: bool) -> Option<int> {
    if s.len() > 0 && s[0] == '+' && all_digits(s.skip(1)) {
        Some(digits_value(s.skip(1)))
    } else if s.len() > 0 && s[0] == '-' && signed && all_digits(s.skip(1)) {
        Some(-digits_value(s.skip(1)))
    } else if all_digits(s) {
        Some(digits_value(s))
    } else {
        None
    }
}

/// `n`, where it lies between `lo` and `hi`.
pub open spec fn within(n: Option<int>, lo: int, hi: int) -> Option<int> {
    match n {
        Some(v) => if lo <= v <= hi {
            Some(v)
        } else {
            None
        },
        None => None,
    }
}

/// The `i64` that `s` stands for.
pub open spec fn i64_value(s: Seq<char>) -> Option<int> {
    within(int_value(s, true), i64::MIN as int, i64::MAX as int)
}

/// The `i32` that `s` stands for.
pub open spec fn i32_value(s: Seq<char>) -> Option<int> {
    within(int_value(s, true), i32::MIN as int, i32::MAX as int)
}

/// The `u32` that `s` stands for.
pub open spec fn u32_value(s: Seq<char>) -> Option<int> {
    within(int_value(s, false), 0, u32::MAX as int)
}

proof fn lemma_digits_value_grows(s: Seq<char>, k: int)
    requires
        all_digits(s),
        0 <= k <= s.len(),
    ensures
        0 <= digits_value(s.take(k)) <= digits_value(s),
    decreases s.len(),
{
    if k == s.len() {
        assert(s.take(k) == s);
        if s.len() > 1 {
            lemma_digits_value_grows(s.drop_last(), s.len() - 1);
            assert(s.drop_last().take(s.len() - 1) == s.drop_last());
        } else {
            assert(s.drop_last() == Seq::<char>::empty());
        }
        assert(is_digit(s.last()));
    } else if s.len() == 1 {
        assert(s.take(k) == Seq::<char>::empty());
        assert(s.drop_last() == Seq::<char>::empty());
        assert(is_digit(s.last()));
    } else {
        lemma_digits_value_grows(s.drop_last(), k);
        assert(s.drop_last().take(k) == s.take(k));
        assert(is_digit(s.last()));
    }
}

/// The largest magnitude that any of the readers accepts.
const MAGNITUDE_LIMIT: u64 = 9223372036854775808;

/// The value of the digits from `from` on, where they are digits alone and it is
/// within the limit.
fn read_digits(v: &[char], from: usize) -> (r: Option<u64>)
    requires
        from <= v@.len(),
    ensures
        match r {
            Some(n) => all_digits(v@.skip(from as int)) && n == digits_value(v@.skip(from as int))
                && n <= MAGNITUDE_LIMIT,
            None => all_digits(v@.skip(from as int)) ==> digits_value(v@.skip(from as int))
                > MAGNITUDE_LIMIT,
        },
{
    let ghost s = v@.skip(from as int);
    if from == v.len() {
        return None;
    }
    let mut acc: u64 = 0;
    let mut i: usize = from;
    assert(s.take(0) == Seq::<char>::empty());
    while i < v.len()
        invariant
            from <= i <= v@.len(),
            s == v@.skip(from as int),
            forall|j: int| 0 <= j < i - from ==> is_digit(#[trigger] s[j]),
            acc == digits_value(s.take(i - from)),
            acc <= MAGNITUDE_LIMIT,
        decreases v@.len() - i,
    {
        let c: char = v[i];
        assert(s[i - from] == c);
        if !('0' <= c && c <= '9') {
            assert(!is_digit(s[i - from]));
            return None;
        }
        let d: u64 = c as u64 - 48;
        let next: u128 = acc as u128 * 10 + d as u128;
        proof {
            let t = s.take(i - from + 1);
            assert(t.drop_last() == s.take(i - from));
            assert(t.last() == c);
            if next > MAGNITUDE_LIMIT && all_digits(s) {
                lemma_digits_value_grows(s, i - from + 1);
            }
        }
        if next > MAGNITUDE_LIMIT as u128 {
            return None;
        }
        acc = next as u64;
        i = i + 1;
    }
    assert(s.take(i - from) == s);
    Some(acc)
}

/// The number that `s` stands for, where its magnitude is within the limit.
fn read_int(s: &str, signed: bool) -> (r: Option<i128>)
    ensures
        match r {
            Some(n) => int_value(s@, signed) == Some(n as int) && -MAGNITUDE_LIMIT <= n
                <= MAGNITUDE_LIMIT,
            None => int_value(s@, signed) matches Some(n) ==> n > MAGNITUDE_LIMIT || n
                < -MAGNITUDE_LIMIT,
        },
{
    let v: Vec<char> = chars_of(s);
    if v.len() == 0 {
        return None;
    }
    if v[0] == '+' {
        assert(!is_digit(s@[0]));
        return match read_digits(v.as_slice(), 1) {
            Some(n) => Some(n as i128),
            None => None,
        };
    }
    if v[0] == '-' {
        assert(!is_digit(s@[0]));
        if !signed {
            return None;
        }
        return match read_digits(v.as_slice(), 1) {
            Some(n) => Some(-(n as i128)),
            None => None,
        };
    }
    assert(s@.skip(0) == s@);
    match read_digits(v.as_slice(), 0) {
        Some(n) => Some(n as i128),
        None => None,
    }
}

/// Reads an `i64`.
pub fn parse_i64(s: &str) -> (r: Option<i64>)
    ensures
        match r {
            Some(n) => i64_value(s@) == Some(n as int),
            None => i64_value(s@) is None,
        },
{
    match read_int(s, true) {
        Some(n) => if i64::MIN as i128 <= n && n <= i64::MAX as i128 {
            Some(n as i64)
        } else {
            None
        },
        None => None,
    }
}

/// Reads an `i32`.
pub fn parse_i32(s: &str) -> (r: Option<i32>)
    ensures
        match r {
            Some(n) => i32_value(s@) == Some(n as int),
            None => i32_value(s@) is None,
        },
{
    match read_int(s, true) {
        Some(n) => if i32::MIN as i128 <= n && n <= i32::MAX as i128 {
            Some(n as i32)
        } else {
            None
        },
        None => None,
    }
}

/// Reads a `u32`.
pub fn parse_u32(s: &str) -> (r: Option<u32>)
    ensures
        match r {
            Some(n) => u32_value(s@) == Some(n as int),
            None => u32_value(s@) is None,
        },
{
    match read_int(s, false) {
        Some(n) => if 0 <= n && n <= u32::MAX as i128 {
            Some(n as u32)
        } else {
            None
        },
        None => None,
    }
}

// ---------------------------------------------------------------------------
// Writing

/// The digits of `n`, without leading zeros.
pub open spec fn nat_text(n: nat) -> Seq<char>
    decreases n,
{
    if n < 10 {
        seq![digit_char(n as int)]
    } else {
        nat_text(n / 10).push(digit_char((n % 10) as int))
    }
}

/// `n` as decimal text, with `-` where it is negative.
pub open spec fn int_text(n: int) -> Seq<char> {
    if n < 0 {
        seq!['-'] + nat_text((-n) as nat)
    } else {
        nat_text(n as nat)
    }
}

/// Digits read back give the number that was written.
pub proof fn lemma_nat_text(n: nat)
    ensures
        all_digits(nat_text(n)),
        digits_value(nat_text(n)) == n,
    decreases n,
{
    if n < 10 {
        assert(nat_text(n).drop_last() == Seq::<char>::empty());
        assert(digits_value(Seq::<char>::empty()) == 0);
    } else {
        lemma_nat_text(n / 10);
        assert(nat_text(n).drop_last() == nat_text(n / 10));
    }
}

/// A number that is written and read again is the same number.
pub proof fn law_int_text_reads_back(n: int)
    ensures
        int_value(int_text(n), true) == Some(n),
        n >= 0 ==> int_value(int_text(n), false) == Some(n),
        i64::MIN <= n <= i64::MAX ==> i64_value(int_text(n)) == Some(n),
        i32::MIN <= n <= i32::MAX ==> i32_value(int_text(n)) == Some(n),
        0 <= n <= u32::MAX ==> u32_value(int_text(n)) == Some(n),
{
    if n < 0 {
        lemma_nat_text((-n) as nat);
        assert(int_text(n).skip(1) == nat_text((-n) as nat));
    } else {
        lemma_nat_text(n as nat);
        assert(is_digit(int_text(n)[0]));
    }
}

/// A written number is one word, made of digits and perhaps a sign.
pub proof fn lemma_int_text_word(n: int)
    ensures
        is_word(int_text(n)),
        forall|i: int| 0 <= i < int_text(n).len() ==> is_digit(#[trigger] int_text(n)[i]) || int_text(n)[i] == '-',
{
    let s = int_text(n);
    if n < 0 {
        let t = nat_text((-n) as nat);
        lemma_nat_text((-n) as nat);
        assert forall|i: int| 0 <= i < s.len() implies is_digit(#[trigger] s[i]) || s[i] == '-' by {
            if i > 0 {
                assert(s[i] == t[i - 1]);
            }
        }
    } else {
        lemma_nat_text(n as nat);
    }
    assert forall|j: int| 0 <= j < s.len() implies !is_space(#[trigger] s[j]) by {
        assert(is_digit(s[j]) || s[j] == '-');
    }
}

/// Appends the digits of `n`.
pub fn push_u64(out: &mut String, n: u64)
    ensures
        final(out)@ == old(out)@ + nat_text(n as nat),
    decreases n,
{
    if n >= 10 {
        push_u64(out, n / 10);
    }
    let d: u8 = (n % 10) as u8;
    let c: char = (48 + d) as char;
    out.push(c);
    proof {
        if n >= 10 {
            assert(old(out)@ + nat_text((n / 10) as nat).push(c) == (old(out)@ + nat_text(
                (n / 10) as nat,
            )).push(c));
        } else {
            assert(old(out)@ + seq![c] == old(out)@.push(c));
        }
    }
}

/// Appends `n` as decimal text.
pub fn push_i64(out: &mut String, n: i64)
    ensures
        final(out)@ == old(out)@ + int_text(n as int),
{
    if n < 0 {
        out.push('-');
        let m: i128 = -(n as i128);
        push_u64(out, m as u64);
        assert(old(out)@.push('-') + nat_text((-n) as nat) == old(out)@ + (seq!['-'] + nat_text(
            (-n) as nat,
        )));
    } else {
        push_u64(out, n as u64);
    }
}

} // verus!
