//! Numbers as texts: what is written is what is read.

use crate::fields;
use crate::script_spec;
use crate::script_spec::ErrorModel;
use crate::text;
use vstd::prelude::*;

verus! {

/// The character of a digit.
pub open spec fn digit_char(d: int, capital: bool) -> char {
    if d < 10 {
        ('0' as int + d) as char
    } else if capital {
        ('A' as int + d - 10) as char
    } else {
        ('a' as int + d - 10) as char
    }
}

/// The digits of a number, without leading zeros.
pub open spec fn digits_of(n: int, radix: int, capital: bool) -> Seq<char>
    decreases n,
{
    if n < radix || radix < 2 {
        seq![digit_char(n, capital)]
    } else {
        proof {
            assert(0 <= n / radix < n) by (nonlinear_arith)
                requires
                    n >= radix >= 2,
            ;
        }
        digits_of(n / radix, radix, capital).push(digit_char(n % radix, capital))
    }
}

/// A number with its sign, where it is negative.
pub open spec fn signed_digits(v: int, radix: int, capital: bool) -> Seq<char> {
    if v < 0 {
        seq!['-'] + digits_of(-v, radix, capital)
    } else {
        digits_of(v, radix, capital)
    }
}

/// A number in decimal.
pub open spec fn decimal(v: int) -> Seq<char> {
    signed_digits(v, 10, false)
}

/// A number in hexadecimal, after its mark `0x` or `0X`.
pub open spec fn hexadecimal(v: int, capital_mark: bool, capital: bool) -> Seq<char> {
    (if capital_mark {
        "0X"@
    } else {
        "0x"@
    }) + signed_digits(v, 16, capital)
}

/// A number without its last digit is smaller.
proof fn lemma_shorter(n: int, radix: int)
    requires
        n >= radix >= 2,
    ensures
        0 <= n / radix < n,
        n == (n / radix) * radix + n % radix,
        0 <= n % radix < radix,
{
    assert(0 <= n / radix < n && n == (n / radix) * radix + n % radix && 0 <= n % radix < radix)
        by (nonlinear_arith)
        requires
            n >= radix >= 2,
    ;
}

/// Is a character a digit of some base up to sixteen?
spec fn is_digit(c: char) -> bool {
    ('0' <= c && c <= '9') || ('a' <= c && c <= 'f') || ('A' <= c && c <= 'F')
}

/// Digits stand for the number that they were made from.
proof fn lemma_digits(n: int, radix: int, capital: bool)
    requires
        n >= 0,
        radix == 10 || radix == 16,
    ensures
        digits_of(n, radix, capital).len() > 0,
        forall|i: int|
            0 <= i < digits_of(n, radix, capital).len() ==> is_digit(
                #[trigger] digits_of(n, radix, capital)[i],
            ),
        fields::magnitude(digits_of(n, radix, capital), radix) == Some(n),
    decreases n,
{
    let s = digits_of(n, radix, capital);
    if n < radix {
        assert(s.drop_last() =~= Seq::<char>::empty());
        assert(fields::digit(s.last(), radix) == Some(n));
        assert(fields::magnitude(s.drop_last(), radix) == Some(0int));
        assert(0 * radix == 0);
        assert(fields::magnitude(s, radix) == Some(0 * radix + n));
    } else {
        lemma_shorter(n, radix);
        lemma_digits(n / radix, radix, capital);
        let d = n % radix;
        assert(s.drop_last() =~= digits_of(n / radix, radix, capital));
        assert(s.last() == digit_char(d, capital));
        assert(fields::digit(s.last(), radix) == Some(d));
        assert(fields::magnitude(s, radix) == Some((n / radix) * radix + d));
        assert forall|i: int| 0 <= i < s.len() implies is_digit(#[trigger] s[i]) by {
            if i < s.len() - 1 {
                assert(s[i] == s.drop_last()[i]);
            }
        }
    }
}

/// A signed number reads back.
proof fn lemma_signed(v: i64, radix: int, capital: bool)
    requires
        radix == 10 || radix == 16,
    ensures
        ({
            let s = signed_digits(v as int, radix, capital);
            &&& s.len() > 0
            &&& is_digit(s[0]) || s[0] == '-'
            &&& forall|i: int| 0 < i < s.len() ==> is_digit(#[trigger] s[i])
            &&& is_digit(s.last())
            &&& fields::signed(s, radix) == Some(v)
        }),
{
    let s = signed_digits(v as int, radix, capital);
    if v < 0 {
        let digits = digits_of(-v, radix, capital);
        lemma_digits(-v, radix, capital);
        assert(text::dropped(s, 1) =~= digits);
        assert(s.last() == digits[digits.len() - 1]);
        assert forall|i: int| 0 < i < s.len() implies is_digit(#[trigger] s[i]) by {
            assert(s[i] == digits[i - 1]);
        }
    } else {
        lemma_digits(v as int, radix, capital);
        assert(is_digit(s[0]));
        assert(s.last() == s[s.len() - 1]);
    }
}

/// Every number reads back from its decimal and its hexadecimal text, with
/// either mark and with small or capital digits; so it does in a watch, whatever
/// it stands for there.
pub proof fn law_written_numbers_read_back(
    v: i64,
    capital_mark: bool,
    capital: bool,
    what: Seq<char>,
)
    ensures
        fields::number(decimal(v as int)) == Some(v),
        fields::number(hexadecimal(v as int, capital_mark, capital)) == Some(v),
        script_spec::number_of(decimal(v as int), what) == Ok::<i64, ErrorModel>(v),
        script_spec::number_of(hexadecimal(v as int, capital_mark, capital), what) == Ok::<
            i64,
            ErrorModel,
        >(v),
{
    reveal_strlit("0x");
    reveal_strlit("0X");
    let plain = decimal(v as int);
    lemma_signed(v, 10, false);
    assert(fields::trimmed(plain) == plain);
    assert(!text::starts_with(plain, "0x"@) && !text::starts_with(plain, "0X"@)) by {
        if plain.len() >= 2 {
            assert(plain.subrange(0, 2)[1] == plain[1]);
            assert("0x"@[1] == 'x' && "0X"@[1] == 'X');
        }
    }
    let marked = hexadecimal(v as int, capital_mark, capital);
    let rest = signed_digits(v as int, 16, capital);
    lemma_signed(v, 16, capital);
    assert(marked.last() == rest.last());
    assert(fields::trimmed(marked) == marked);
    assert(text::dropped(marked, 2) =~= rest);
    if capital_mark {
        assert(marked.subrange(0, 2) =~= "0X"@);
        assert(marked.subrange(0, 2)[1] == 'X');
    } else {
        assert(marked.subrange(0, 2) =~= "0x"@);
    }
}

/// White space at the end of a text is trimmed away.
proof fn lemma_trim_end(s: Seq<char>, c: char)
    requires
        fields::is_space(c),
    ensures
        fields::trimmed(s.push(c)) == fields::trimmed(s),
    decreases s.len(),
{
    let t = s.push(c);
    if s.len() == 0 {
        assert(text::dropped(t, 1) =~= s);
    } else if fields::is_space(s[0]) {
        lemma_trim_end(text::dropped(s, 1), c);
        assert(text::dropped(t, 1) =~= text::dropped(s, 1).push(c));
    } else {
        assert(t.drop_last() =~= s);
    }
}

/// White space around a number does not change how it is read.
pub proof fn law_padding_is_free(
    left: Seq<char>,
    s: Seq<char>,
    right: Seq<char>,
    what: Seq<char>,
)
    requires
        forall|i: int| 0 <= i < left.len() ==> fields::is_space(#[trigger] left[i]),
        forall|i: int| 0 <= i < right.len() ==> fields::is_space(#[trigger] right[i]),
    ensures
        fields::trimmed(left + s + right) == fields::trimmed(s),
        fields::number(left + s + right) == fields::number(s),
        script_spec::number_of(left + s + right, what) == script_spec::number_of(s, what),
    decreases left.len() + right.len(),
{
    if right.len() > 0 {
        let shorter = right.drop_last();
        assert forall|i: int| 0 <= i < shorter.len() implies fields::is_space(
            #[trigger] shorter[i],
        ) by {
            assert(shorter[i] == right[i]);
        }
        law_padding_is_free(left, s, shorter, what);
        assert(right[right.len() - 1] == right.last());
        lemma_trim_end(left + s + shorter, right.last());
        assert((left + s + shorter).push(right.last()) =~= left + s + right);
    } else if left.len() > 0 {
        let shorter = text::dropped(left, 1);
        assert forall|i: int| 0 <= i < shorter.len() implies fields::is_space(
            #[trigger] shorter[i],
        ) by {
            assert(shorter[i] == left[i + 1]);
        }
        law_padding_is_free(shorter, s, right, what);
        assert((left + s + right)[0] == left[0]);
        assert(text::dropped(left + s + right, 1) =~= shorter + s + right);
    } else {
        assert(left + s + right =~= s);
    }
}

} // verus!
