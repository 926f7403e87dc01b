//! Character classes and decimal digit strings.
//!
//! Name validation and token splitting classify characters three ways:
//! ASCII digits (stated directly), Unicode letters and Unicode whitespace
//! (both answered by the standard library and given names here).

use vstd::prelude::*;

verus! {

/// True when `c` is one of the ten ASCII digit characters `'0'` to `'9'`.
pub open spec fn is_ascii_digit_char(c: char) -> bool {
    48 <= c as u32 <= 57
}

/// Numeric value of an ASCII digit character.
pub open spec fn digit_value(c: char) -> nat
    recommends
        is_ascii_digit_char(c),
{
    (c as u32 - 48) as nat
}

/// Executable check that `c` is an ASCII digit.
pub fn is_ascii_digit(c: char) -> (r: bool)
    ensures
        r == is_ascii_digit_char(c),
{
    let u = c as u32;
    48 <= u && u <= 57
}

/// Whether `c` counts as a letter; valid names consist of such characters only.
pub uninterp spec fn char_is_alpha(c: char) -> bool;

/// Whether `c` counts as whitespace; combination values split at such characters.
pub uninterp spec fn char_is_space(c: char) -> bool;

/// Relies on `char::is_alphabetic`: true exactly for characters with the
/// Unicode `Alphabetic` property, a function of the character alone.
#[verifier::external_body]
pub fn is_alphabetic_char(c: char) -> (r: bool)
    ensures
        r == char_is_alpha(c),
{
    c.is_alphabetic()
}

/// Relies on `char::is_whitespace`: true exactly for characters with the
/// Unicode `White_Space` property, a function of the character alone.
#[verifier::external_body]
pub fn is_whitespace_char(c: char) -> (r: bool)
    ensures
        r == char_is_space(c),
{
    c.is_whitespace()
}

/// True when every character of `s` is an ASCII digit.
pub open spec fn all_ascii_digits(s: Seq<char>) -> bool {
    forall|i: int| 0 <= i < s.len() ==> is_ascii_digit_char(#[trigger] s[i])
}

/// Value of a string of ASCII digits read as a decimal number.
pub open spec fn digits_val(s: Seq<char>) -> nat
    decreases s.len(),
{
    if s.len() == 0 {
        0
    } else {
        digits_val(s.drop_last()) * 10 + digit_value(s.last())
    }
}

/// The ASCII digit character for a value below ten.
pub open spec fn digit_char(d: nat) -> char
    recommends
        d < 10,
{
    ((d + 48) as u32) as char
}

/// Shortest decimal digit string for `n`: no leading zero unless `n` is zero.
pub open spec fn digits_of(n: nat) -> Seq<char>
    decreases n,
{
    if n < 10 {
        seq![digit_char(n)]
    } else {
        digits_of(n / 10).push(digit_char(n % 10))
    }
}

/// The decimal digit string of `n` consists of ASCII digits and reads back as `n`.
pub proof fn lemma_digits_of_val(n: nat)
    ensures
        digits_of(n).len() >= 1,
        all_ascii_digits(digits_of(n)),
        digits_val(digits_of(n)) == n,
    decreases n,
{
    if n < 10 {
        let s = digits_of(n);
        assert(s =~= seq![digit_char(n)]);
        assert(s.drop_last() =~= Seq::<char>::empty());
        assert(digit_value(digit_char(n)) == n);
        assert(digits_val(s) == digits_val(s.drop_last()) * 10 + digit_value(s.last()));
        assert(digits_val(s) == n);
    } else {
        lemma_digits_of_val(n / 10);
        let s = digits_of(n);
        assert(s.drop_last() =~= digits_of(n / 10));
        assert(digit_value(digit_char(n % 10)) == n % 10);
        assert((n / 10) * 10 + n % 10 == n) by (nonlinear_arith);
        assert(digits_val(s) == digits_val(s.drop_last()) * 10 + digit_value(s.last()));
        assert(s.last() == digit_char(n % 10));
        assert(digits_val(s.drop_last()) == n / 10);
        assert(digits_val(s) == n);
    }
}

/// Reading more digits never lowers the value: the value of a prefix is a bound.
pub proof fn lemma_digits_val_prefix(s: Seq<char>, i: int)
    requires
        0 <= i <= s.len(),
    ensures
        digits_val(s) >= digits_val(s.take(i)),
    decreases s.len() - i,
{
    if i < s.len() {
        lemma_digits_val_prefix(s, i + 1);
        let a = digits_val(s.take(i));
        assert(s.take(i + 1).drop_last() =~= s.take(i));
        assert(s.take(i + 1).last() == s[i]);
        assert(digits_val(s.take(i + 1)) == a * 10 + digit_value(s[i]));
        assert(a * 10 >= a) by (nonlinear_arith)
            requires
                a >= 0,
        ;
    } else {
        assert(s.take(i) =~= s);
    }
}

/// Parse a whole character vector as an unsigned decimal number.
/// Succeeds exactly when the text is non-empty, all ASCII digits, and the
/// value fits in `usize`.
pub fn parse_usize(v: &Vec<char>) -> (r: Option<usize>)
    ensures
        match r {
            Some(n) => v@.len() > 0 && all_ascii_digits(v@) && n as nat == digits_val(v@),
            None => v@.len() == 0 || !all_ascii_digits(v@) || digits_val(v@) > usize::MAX,
        },
{
    if v.len() == 0 {
        return None;
    }
    let mut acc: usize = 0;
    let mut i: usize = 0;
    while i < v.len()
        invariant
            0 <= i <= v@.len(),
            all_ascii_digits(v@.take(i as int)),
            acc as nat == digits_val(v@.take(i as int)),
        decreases v@.len() - i,
    {
        let c = v[i];
        if !is_ascii_digit(c) {
            assert(!all_ascii_digits(v@)) by {
                assert(!is_ascii_digit_char(v@[i as int]));
            }
            return None;
        }
        let d: usize = (c as u32 as usize) - 48;
        let shifted = match acc.checked_mul(10) {
            Some(s) => s,
            None => {
                proof {
                    let p = v@.take(i as int + 1);
                    assert(p.drop_last() =~= v@.take(i as int));
                    assert(p.last() == v@[i as int]);
                    assert(digits_val(p) == acc as nat * 10 + digit_value(v@[i as int]));
                    lemma_digits_val_prefix(v@, i as int + 1);
                }
                return None;
            },
        };
        let next = match shifted.checked_add(d) {
            Some(s) => s,
            None => {
                proof {
                    let p = v@.take(i as int + 1);
                    assert(p.drop_last() =~= v@.take(i as int));
                    assert(p.last() == v@[i as int]);
                    assert(digits_val(p) == acc as nat * 10 + digit_value(v@[i as int]));
                    lemma_digits_val_prefix(v@, i as int + 1);
                }
                return None;
            },
        };
        proof {
            let p = v@.take(i as int + 1);
            assert(p.drop_last() =~= v@.take(i as int));
            assert(p.last() == v@[i as int]);
        }
        acc = next;
        i = i + 1;
    }
    assert(v@.take(v@.len() as int) =~= v@);
    Some(acc)
}

} // verus!
