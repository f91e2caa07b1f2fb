//! What numerals and trimming come to, told of their inputs and results.

use vstd::arithmetic::power::{lemma_pow0, lemma_pow1, lemma_pow_adds, pow};
use vstd::prelude::*;

use crate::text::{
    all_digits, decimal, decimal_value, is_digit, is_white_space, lemma_decimal_value, trim_end,
    trim_start, trimmed, u32_value,
};

verus! {

/// The value of a single digit is its distance from `0`, and in two numerals put together the first
/// counts as many powers of ten as the second has digits.
pub proof fn law_digits_count_by_their_place(a: Seq<char>, b: Seq<char>, c: char)
    requires
        all_digits(a),
        all_digits(b),
        is_digit(c),
    ensures
        decimal_value(seq![c]) == c as int - '0' as int,
        decimal_value(Seq::empty()) == 0,
        decimal_value(a + b) == decimal_value(a) * pow(10, b.len()) + decimal_value(b),
    decreases b.len(),
{
    reveal_with_fuel(decimal_value, 2);
    assert(seq![c].drop_last() =~= Seq::<char>::empty());
    if b.len() == 0 {
        assert(a + b =~= a);
        lemma_pow0(10);
    } else {
        let fewer = b.drop_last();
        assert forall|i: int| 0 <= i < fewer.len() implies is_digit(#[trigger] fewer[i]) by {
            assert(is_digit(b[i]));
        }
        law_digits_count_by_their_place(a, fewer, c);
        assert((a + b).drop_last() =~= a + fewer);
        assert((a + b).last() == b.last());
        assert(is_digit(b[b.len() - 1]));
        lemma_pow_adds(10, fewer.len(), 1);
        lemma_pow1(10);
        let (x, p) = (decimal_value(a) as int, pow(10, fewer.len()));
        assert((x * p) * 10 == x * (p * 10)) by (nonlinear_arith);
    }
}

/// The numeral of a number is made of digits, does not start with `0` unless it is `0`, and stands
/// for that number.
pub proof fn law_numerals_are_canonical(n: nat)
    ensures
        decimal(n).len() > 0,
        all_digits(decimal(n)),
        decimal(n)[0] == '0' ==> decimal(n) == seq!['0'],
        decimal_value(decimal(n)) == n,
    decreases n,
{
    lemma_decimal_value(n);
    if n < 10 {
        if decimal(n)[0] == '0' {
            assert(decimal(n) =~= seq!['0']);
        }
    } else {
        law_numerals_are_canonical(n / 10);
        let head = decimal(n / 10);
        assert(decimal(n)[0] == head[0]);
        if head[0] == '0' {
            reveal_with_fuel(decimal_value, 2);
            assert(seq!['0'].drop_last() =~= Seq::<char>::empty());
            assert(decimal_value(head) == 0);
            assert(n / 10 == 0);
        }
    }
}

/// A text is read as a number exactly if it is a row of digits, with or without one `+` before it,
/// whose value fits; leading zeros do not matter.
pub proof fn law_numbers_are_read_from_digits(s: Seq<char>, n: u32)
    ensures
        u32_value(s) == Some(n) <==> exists|digits: Seq<char>| #[trigger]
            all_digits(digits) && digits.len() > 0 && decimal_value(digits) == n && (s == digits
                || s == seq!['+'] + digits),
        u32_value(s) is None <==> !(exists|digits: Seq<char>| #[trigger]
            all_digits(digits) && digits.len() > 0 && decimal_value(digits) <= u32::MAX && (s
                == digits || s == seq!['+'] + digits)),
{
    let rest = if s.len() > 0 && s[0] == '+' {
        s.drop_first()
    } else {
        s
    };
    if s.len() > 0 && s[0] == '+' {
        assert(s =~= seq!['+'] + rest);
    }
    assert forall|digits: Seq<char>| #[trigger]
        all_digits(digits) && digits.len() > 0 && (s == digits || s == seq!['+']
            + digits) implies digits == rest by {
        assert(is_digit(digits[0]));
        if s == seq!['+'] + digits {
            assert(s.drop_first() =~= digits);
        }
    }
    if u32_value(s) is Some {
        assert(all_digits(rest));
    }
}

/// Whether all characters are white space.
pub open spec fn all_white(s: Seq<char>) -> bool {
    forall|i: int| 0 <= i < s.len() ==> is_white_space(#[trigger] s[i])
}

/// Trimming takes white space off both ends and nothing else: the text is white space, the trimmed
/// text and white space, and the trimmed text has no white space at its ends.
pub proof fn law_trimming_takes_white_space_off(s: Seq<char>)
    ensures
        exists|a: Seq<char>, b: Seq<char>|
            #![trigger all_white(a), all_white(b)]
            all_white(a) && all_white(b) && s == a + trimmed(s) + b,
        trimmed(s).len() > 0 ==> !is_white_space(trimmed(s)[0]) && !is_white_space(
            trimmed(s).last(),
        ),
        all_white(s) ==> trimmed(s).len() == 0,
{
    lemma_trim_start(s);
    let rest = trim_start(s);
    lemma_trim_end(rest);
    let a = s.take(s.len() - rest.len());
    let t = trimmed(s);
    let b = rest.skip(t.len() as int);
    assert(s =~= a + t + b);
    assert(all_white(a) && all_white(b));
    if t.len() > 0 {
        assert(t[0] == rest[0]);
    }
    if all_white(s) && t.len() > 0 {
        assert(t[0] == s[a.len() as int]);
        assert(is_white_space(s[a.len() as int]));
    }
}

proof fn lemma_trim_start(s: Seq<char>)
    ensures
        trim_start(s).len() <= s.len(),
        trim_start(s) == s.skip(s.len() - trim_start(s).len()),
        all_white(s.take(s.len() - trim_start(s).len())),
        trim_start(s).len() > 0 ==> !is_white_space(trim_start(s)[0]),
    decreases s.len(),
{
    if s.len() > 0 && is_white_space(s[0]) {
        let rest = s.drop_first();
        lemma_trim_start(rest);
        let t = trim_start(s);
        let n = s.len() - t.len();
        assert(s.skip(n) =~= rest.skip(n - 1));
        assert forall|i: int| 0 <= i < n implies is_white_space(#[trigger] s.take(n)[i]) by {
            if i > 0 {
                assert(is_white_space(rest.take(n - 1)[i - 1]));
            }
        }
    } else {
        assert(s.skip(0) =~= s);
    }
}

proof fn lemma_trim_end(s: Seq<char>)
    ensures
        trim_end(s).len() <= s.len(),
        trim_end(s) == s.take(trim_end(s).len() as int),
        all_white(s.skip(trim_end(s).len() as int)),
        trim_end(s).len() > 0 ==> !is_white_space(trim_end(s).last()),
    decreases s.len(),
{
    if s.len() > 0 && is_white_space(s.last()) {
        let rest = s.drop_last();
        lemma_trim_end(rest);
        let n = trim_end(s).len() as int;
        assert(s.take(n) =~= rest.take(n));
        assert forall|i: int| 0 <= i < s.len() - n implies is_white_space(
            #[trigger] s.skip(n)[i],
        ) by {
            if i < s.len() - n - 1 {
                assert(is_white_space(rest.skip(n)[i]));
            }
        }
    } else {
        assert(s.take(s.len() as int) =~= s);
    }
}

/// There are ten digits.
pub proof fn law_there_are_ten_digits(c: char)
    ensures
        is_digit(c) <==> seq!['0', '1', '2', '3', '4', '5', '6', '7', '8', '9'].contains(c),
{
    let ten = seq!['0', '1', '2', '3', '4', '5', '6', '7', '8', '9'];
    if is_digit(c) {
        assert(ten[c as int - '0' as int] == c);
    }
}

} // verus!
