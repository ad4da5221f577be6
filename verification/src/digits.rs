//! Decimal digits: the textual form of dictionary reference identifiers.

use vstd::prelude::*;

verus! {

/// Whether `c` is an ASCII decimal digit.
pub open spec fn is_digit_char(c: char) -> bool {
    48 <= c as int && c as int <= 57
}

/// The numeric value of a digit character.
pub open spec fn digit_val(c: char) -> int {
    c as int - 48
}

/// The digit character for a value in `0 .. 10`.
pub open spec fn digit_char(d: int) -> char {
    ((48 + d) as u8) as char
}

/// Every character of `s` is a decimal digit. Vacuously true of the empty
/// sequence.
pub open spec fn all_digits(s: Seq<char>) -> bool {
    forall|j: int| 0 <= j < s.len() ==> is_digit_char(#[trigger] s[j])
}

/// The number denoted by a digit sequence, most significant digit first.
pub open spec fn digits_value(s: Seq<char>) -> int
    decreases s.len(),
{
    if s.len() == 0 {
        0
    } else {
        digits_value(s.drop_last()) * 10 + digit_val(s.last())
    }
}

/// The decimal digit sequence of `n`, without leading zeros.
pub open spec fn dec_digits(n: nat) -> Seq<char>
    decreases n,
{
    if n < 10 {
        seq![digit_char(n as int)]
    } else {
        dec_digits(n / 10).push(digit_char((n % 10) as int))
    }
}

/// Digit characters round-trip through their value, and are digits.
pub proof fn lemma_digit_char_val(d: int)
    requires
        0 <= d < 10,
    ensures
        is_digit_char(digit_char(d)),
        digit_val(digit_char(d)) == d,
{
    assert(digit_char(d) as int == 48 + d);
}

/// A digit character is neither the marker `'@'` nor whitespace.
pub proof fn lemma_digit_char_plain(c: char)
    requires
        is_digit_char(c),
    ensures
        c != '@',
        !crate::text::is_ws_char(c),
{
    assert('@' as int == 64);
}

/// The value of an all-digit sequence is non-negative.
pub proof fn lemma_digits_value_nonneg(s: Seq<char>)
    requires
        all_digits(s),
    ensures
        digits_value(s) >= 0,
    decreases s.len(),
{
    if s.len() > 0 {
        assert(all_digits(s.drop_last()));
        lemma_digits_value_nonneg(s.drop_last());
        assert(is_digit_char(s.last()));
    }
}

/// The value of a prefix never exceeds the value of the whole digit string.
pub proof fn lemma_digits_value_prefix(s: Seq<char>, i: int)
    requires
        all_digits(s),
        0 <= i <= s.len(),
    ensures
        digits_value(s.take(i)) <= digits_value(s),
    decreases s.len() - i,
{
    if i < s.len() {
        let a = s.take(i);
        let b = s.take(i + 1);
        assert(b.drop_last() =~= a);
        assert(b.last() == s[i]);
        assert(all_digits(a));
        lemma_digits_value_nonneg(a);
        assert(is_digit_char(s[i]));
        assert(digits_value(b) == digits_value(a) * 10 + digit_val(s[i]));
        assert(digits_value(a) * 10 >= digits_value(a));
        lemma_digits_value_prefix(s, i + 1);
        assert(s.take(s.len() as int) =~= s);
    } else {
        assert(s.take(i) =~= s);
    }
}

/// The decimal rendering of `n` is a non-empty digit string whose value is
/// `n` again.
pub proof fn lemma_dec_digits(n: nat)
    ensures
        dec_digits(n).len() >= 1,
        all_digits(dec_digits(n)),
        digits_value(dec_digits(n)) == n,
    decreases n,
{
    if n < 10 {
        lemma_digit_char_val(n as int);
        let s = dec_digits(n);
        assert(s == seq![digit_char(n as int)]);
        assert(s.len() == 1);
        assert(s.last() == digit_char(n as int));
        assert(s.drop_last() =~= Seq::<char>::empty());
        assert(digits_value(s.drop_last()) == 0);
        assert(digits_value(s) == digits_value(s.drop_last()) * 10 + digit_val(s.last()));
        assert(digits_value(s) == digit_val(digit_char(n as int)));
    } else {
        lemma_dec_digits(n / 10);
        lemma_digit_char_val((n % 10) as int);
        let s = dec_digits(n);
        assert(s.drop_last() == dec_digits(n / 10));
        assert(digits_value(s) == digits_value(dec_digits(n / 10)) * 10 + digit_val(
            digit_char((n % 10) as int),
        ));
        assert(n == (n / 10) * 10 + n % 10);
        assert(forall|j: int| 0 <= j < s.len() ==> is_digit_char(#[trigger] s[j]));
    }
}

/// Whether `c` is a decimal digit.
pub fn is_digit_exec(c: char) -> (b: bool)
    ensures
        b == is_digit_char(c),
{
    let u = c as u32;
    48 <= u && u <= 57
}

/// The digit character for a value in `0 .. 10`.
fn digit_char_exec(d: usize) -> (c: char)
    requires
        d < 10,
    ensures
        c == digit_char(d as int),
{
    ((48 + d as u8)) as char
}

/// Append the decimal rendering of `n` to `out`.
pub fn push_dec_digits(out: &mut Vec<char>, n: usize)
    ensures
        final(out)@ == old(out)@ + dec_digits(n as nat),
    decreases n,
{
    if n < 10 {
        out.push(digit_char_exec(n));
        proof {
            assert(out@ =~= old(out)@ + dec_digits(n as nat));
        }
    } else {
        push_dec_digits(out, n / 10);
        out.push(digit_char_exec(n % 10));
        proof {
            assert(out@ =~= old(out)@ + dec_digits(n as nat));
        }
    }
}

/// Whether every character of `v` is a decimal digit.
pub fn all_digits_exec(v: &Vec<char>) -> (b: bool)
    ensures
        b == all_digits(v@),
{
    let mut i: usize = 0;
    while i < v.len()
        invariant
            i <= v.len(),
            forall|j: int| 0 <= j < i ==> is_digit_char(#[trigger] v@[j]),
        decreases v.len() - i,
    {
        if !is_digit_exec(v[i]) {
            return false;
        }
        i = i + 1;
    }
    true
}

/// Parse an all-digit string as a number. `None` means the value does not fit
/// in a `u64`, so it is certainly out of range of any dictionary.
pub fn parse_digits(v: &Vec<char>) -> (r: Option<u64>)
    requires
        all_digits(v@),
    ensures
        match r {
            Some(val) => val as int == digits_value(v@),
            None => digits_value(v@) > u64::MAX,
        },
{
    let mut acc: u64 = 0;
    let mut i: usize = 0;
    while i < v.len()
        invariant
            i <= v.len(),
            all_digits(v@),
            acc as int == digits_value(v@.take(i as int)),
        decreases v.len() - i,
    {
        let c = v[i];
        let d = (c as u32 - 48) as u64;
        proof {
            assert(is_digit_char(v@[i as int]));
            assert(d as int == digit_val(c));
        }
        let shifted = match acc.checked_mul(10) {
            Some(x) => x,
            None => {
                proof {
                    let b = v@.take(i + 1);
                    assert(b.drop_last() =~= v@.take(i as int));
                    assert(b.last() == c);
                    assert(digits_value(b) == acc as int * 10 + digit_val(c));
                    assert(digits_value(b) > u64::MAX);
                    lemma_digits_value_prefix(v@, i + 1);
                }
                return None;
            },
        };
        let next = match shifted.checked_add(d) {
            Some(x) => x,
            None => {
                proof {
                    let b = v@.take(i + 1);
                    assert(b.drop_last() =~= v@.take(i as int));
                    assert(b.last() == c);
                    assert(digits_value(b) == acc as int * 10 + digit_val(c));
                    assert(digits_value(b) > u64::MAX);
                    lemma_digits_value_prefix(v@, i + 1);
                }
                return None;
            },
        };
        acc = next;
        i = i + 1;
        proof {
            let b = v@.take(i as int);
            assert(b.drop_last() =~= v@.take(i - 1));
            assert(b.last() == c);
            assert(digits_value(b) == digits_value(v@.take(i - 1)) * 10 + digit_val(c));
        }
    }
    proof {
        assert(v@.take(v@.len() as int) =~= v@);
    }
    Some(acc)
}

} // verus!
