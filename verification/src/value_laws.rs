//! What names, number literals and replaced texts stand for.

use crate::names;
use crate::number;
use crate::program::ProgramModel;
use crate::script_eval;
use crate::state::StateModel;
use crate::text;
use vstd::arithmetic::power2::*;
use vstd::prelude::*;

verus! {

// ---------------------------------------------------------------------------
// Names
// ---------------------------------------------------------------------------

/// The name of a copy of a property: two dashes, two underscores, a mark, the rest.
pub open spec fn copy_of(mark: char, rest: Seq<char>) -> Seq<char> {
    "--__"@.push(mark) + rest
}

/// Two underscores and a digit start the name.
pub open spec fn marked(rest: Seq<char>) -> bool {
    rest.len() >= 3 && rest[0] == '_' && rest[1] == '_' && text::is_digit(rest[2])
}

proof fn lemma_copy_of(mark: char, rest: Seq<char>)
    ensures
        text::starts_with(copy_of(mark, rest), "--__"@),
        text::starts_with(copy_of(mark, rest), "--"@),
        copy_of(mark, rest).len() == 5 + rest.len(),
        copy_of(mark, rest)[4] == mark,
        text::dropped(copy_of(mark, rest), 5) == rest,
        text::dropped(copy_of(mark, rest), 2) == seq!['_', '_', mark] + rest,
{
    reveal_strlit("--__");
    reveal_strlit("--");
    let name = copy_of(mark, rest);
    assert(name.subrange(0, 4) =~= "--__"@);
    assert(name.subrange(0, 2) =~= "--"@);
    assert(text::dropped(name, 5) =~= rest);
    assert(text::dropped(name, 2) =~= seq!['_', '_', mark] + rest);
}

proof fn lemma_dashed(rest: Seq<char>)
    ensures
        text::starts_with("--"@ + rest, "--"@),
        text::dropped("--"@ + rest, 2) == rest,
        text::starts_with("--"@ + rest, "--__"@) <==> rest.len() >= 2 && rest[0] == '_' && rest[1]
            == '_',
        ("--"@ + rest).len() == 2 + rest.len(),
        rest.len() >= 3 ==> ("--"@ + rest)[4] == rest[2],
{
    reveal_strlit("--__");
    reveal_strlit("--");
    let name = "--"@ + rest;
    assert(name.subrange(0, 2) =~= "--"@);
    assert(text::dropped(name, 2) =~= rest);
    if name.len() >= 4 {
        assert(name[2] == rest[0] && name[3] == rest[1]);
        if rest[0] == '_' && rest[1] == '_' {
            assert(name.subrange(0, 4) =~= "--__"@);
        } else {
            assert(name.subrange(0, 4)[2] == rest[0]);
            assert(name.subrange(0, 4)[3] == rest[1]);
        }
    }
}

/// All copies of a property, whatever digit marks them, and the property itself refer
/// to one variable. A name that no dashes start is the variable's own.
pub proof fn law_copies_name_one_variable(mark: char, rest: Seq<char>)
    ensures
        text::is_digit(mark) ==> names::canonical(copy_of(mark, rest)) == rest,
        !marked(rest) ==> names::canonical("--"@ + rest) == rest,
        !text::is_digit(mark) ==> names::canonical(copy_of(mark, rest)) == seq!['_', '_', mark]
            + rest,
        !text::starts_with(rest, "--"@) ==> names::canonical(rest) == rest,
{
    lemma_copy_of(mark, rest);
    lemma_dashed(rest);
    reveal_strlit("--__");
    reveal_strlit("--");
    if text::starts_with(rest, "--__"@) {
        assert(rest.subrange(0, 4)[0] == rest[0] && rest.subrange(0, 4)[1] == rest[1]);
        assert(rest.subrange(0, 2) =~= "--"@);
    }
}

/// A property keeps its value exactly where it refers to itself or to one of its three
/// copies.
pub proof fn law_kept_properties(mark: char, rest: Seq<char>, other: Seq<char>)
    ensures
        mark == '0' || mark == '1' || mark == '2' ==> (names::keeps(
            copy_of(mark, rest),
            "--"@ + other,
        ) <==> rest == other),
        mark != '0' && mark != '1' && mark != '2' ==> (names::keeps(
            copy_of(mark, rest),
            "--"@ + other,
        ) <==> other == seq!['_', '_', mark] + rest),
        !marked(rest) ==> (names::keeps("--"@ + rest, "--"@ + other) <==> rest == other),
        !text::starts_with(rest, "--"@) ==> !names::keeps(rest, "--"@ + other),
{
    lemma_copy_of(mark, rest);
    lemma_dashed(rest);
    lemma_dashed(other);
    reveal_strlit("--__");
    reveal_strlit("--");
    if text::starts_with(rest, "--__"@) {
        assert(rest.subrange(0, 4)[0] == rest[0] && rest.subrange(0, 4)[1] == rest[1]);
        assert(rest.subrange(0, 2) =~= "--"@);
    }
}

/// A copy of a property reads the variable, whatever slot the property has. The
/// property itself reads its slot, and the variable where it has none.
pub proof fn law_properties_are_found(
    p: ProgramModel,
    s: StateModel,
    slots: Seq<i32>,
    mark: char,
    rest: Seq<char>,
)
    ensures
        text::is_digit(mark) ==> p.property(s, slots, copy_of(mark, rest)) == s.var(rest),
        !marked(rest) && p.slots.contains_key("--"@ + rest) ==> p.property(s, slots, "--"@ + rest)
            == Some(slots[p.slots["--"@ + rest] as int]),
        !marked(rest) && !p.slots.contains_key("--"@ + rest) ==> p.property(s, slots, "--"@ + rest)
            == s.var(rest),
{
    lemma_copy_of(mark, rest);
    lemma_dashed(rest);
    law_copies_name_one_variable(mark, rest);
}

// ---------------------------------------------------------------------------
// Number literals
// ---------------------------------------------------------------------------

/// A literal is cut toward zero: its whole part leaves less than one of its magnitude,
/// and leaves nothing exactly if the literal is whole.
pub proof fn law_literal_is_cut_toward_zero(bits: u64)
    requires
        number::is_finite(bits),
        number::scale(bits) < 0,
    ensures
        ({
            let one = pow2((-number::scale(bits)) as nat) as int;
            let whole = number::whole_magnitude(bits);
            &&& whole * one <= number::significand(bits) < (whole + 1) * one
            &&& number::is_whole(bits) <==> whole * one == number::significand(bits)
        }),
{
    let one = pow2((-number::scale(bits)) as nat) as int;
    let s = number::significand(bits);
    lemma_pow2_pos((-number::scale(bits)) as nat);
    vstd::arithmetic::div_mod::lemma_fundamental_div_mod(s, one);
    assert(s == one * (s / one) + s % one);
    assert(0 <= s % one < one) by {
        vstd::arithmetic::div_mod::lemma_mod_bound(s, one);
    }
    assert((s / one) * one == one * (s / one)) by (nonlinear_arith);
    assert((s / one + 1) * one == one * (s / one) + one) by (nonlinear_arith);
}

/// A literal with its sign bit changed denotes the negated number.
pub proof fn law_sign_bit_negates(bits: u64)
    requires
        bits < 0x8000_0000_0000_0000,
    ensures
        number::truncated((bits + 0x8000_0000_0000_0000) as u64) == -number::truncated(bits),
        number::is_whole((bits + 0x8000_0000_0000_0000) as u64) == number::is_whole(bits),
        number::is_nan((bits + 0x8000_0000_0000_0000) as u64) == number::is_nan(bits),
        number::is_finite((bits + 0x8000_0000_0000_0000) as u64) == number::is_finite(bits),
{
    let other = (bits + 0x8000_0000_0000_0000) as u64;
    assert(number::exponent_field(other) == number::exponent_field(bits));
    assert(number::fraction_field(other) == number::fraction_field(bits));
}

/// Every integer from 2^52 up to 2^53 has a literal, which denotes it.
pub proof fn law_large_integers(n: u64)
    requires
        0x0010_0000_0000_0000 <= n < 0x0020_0000_0000_0000,
    ensures
        number::whole_value((1074 * 0x0010_0000_0000_0000 + n) as u64) == Some(n as int),
{
    let bits = (1074 * 0x0010_0000_0000_0000 + n) as u64;
    assert(number::exponent_field(bits) == 1075);
    assert(number::fraction_field(bits) == n - 0x0010_0000_0000_0000);
    lemma2_to64();
    let one = pow2(0) as int;
    assert(number::scale(bits) == 0);
    assert(number::significand(bits) == n);
    assert(n * one == n) by (nonlinear_arith)
        requires
            one == 1,
    ;
    assert(number::whole_magnitude(bits) == n);
}

/// One more in the exponent doubles what a normal literal denotes; so what counts as
/// twice a literal below the top exponent, and is no NaN, denotes twice its number, but
/// for the neighbour below 2.
pub proof fn law_twice_is_the_double(double: u64, base: u64)
    requires
        number::is_twice(double, base),
        !number::is_nan(double),
        0 < number::exponent_field(base) < 2046,
        double != number::BELOW_TWO_BITS || base != number::ONE_BITS,
    ensures
        number::significand(double) == number::significand(base),
        number::scale(double) == number::scale(base) + 1,
        number::is_negative(double) == number::is_negative(base),
{
    assert(double == base + 0x0010_0000_0000_0000);
    assert(number::fraction_field(double) == number::fraction_field(base));
    assert(number::exponent_field(double) == number::exponent_field(base) + 1);
}

/// Conversions to 64 and to 32 bits hold the number wherever it fits, and the nearest
/// bound elsewhere.
pub proof fn law_conversions_saturate(bits: u64)
    requires
        number::is_finite(bits),
    ensures
        ({
            let v = number::truncated(bits);
            &&& i64::MIN <= v <= i64::MAX ==> number::as_i64(bits) == v
            &&& v > i64::MAX ==> number::as_i64(bits) == i64::MAX
            &&& v < i64::MIN ==> number::as_i64(bits) == i64::MIN
            &&& i32::MIN <= v <= i32::MAX ==> number::as_i32(bits) == v
            &&& v > i32::MAX ==> number::as_i32(bits) == i32::MAX
            &&& v < i32::MIN ==> number::as_i32(bits) == i32::MIN
        }),
{
}

// ---------------------------------------------------------------------------
// Replaced texts
// ---------------------------------------------------------------------------

/// A text that does not hold the first character of the part stays as it is.
pub proof fn law_nothing_to_replace(s: Seq<char>, part: Seq<char>, with: Seq<char>)
    requires
        part.len() > 0,
        forall|i: int| 0 <= i < s.len() ==> #[trigger] s[i] != part[0],
    ensures
        text::replaced(s, part, with) == s,
    decreases s.len(),
{
    if s.len() >= part.len() {
        let rest = text::dropped(s, 1);
        assert(s.subrange(0, part.len() as int)[0] == s[0]);
        assert forall|i: int| 0 <= i < rest.len() implies #[trigger] rest[i] != part[0] by {
            assert(rest[i] == s[i + 1]);
        }
        law_nothing_to_replace(rest, part, with);
        assert(seq![s[0]] + rest =~= s);
    }
}

/// Where the part stands, the other text takes its place, and what follows is replaced
/// in the same way.
pub proof fn law_part_is_replaced(
    before: Seq<char>,
    part: Seq<char>,
    after: Seq<char>,
    with: Seq<char>,
)
    requires
        part.len() > 0,
        forall|i: int| 0 <= i < before.len() ==> #[trigger] before[i] != part[0],
    ensures
        text::replaced(before + part + after, part, with) == before + with + text::replaced(
            after,
            part,
            with,
        ),
    decreases before.len(),
{
    let s = before + part + after;
    if before.len() == 0 {
        assert(s.subrange(0, part.len() as int) =~= part);
        assert(text::dropped(s, part.len() as int) =~= after);
        assert(before + with + text::replaced(after, part, with) =~= with + text::replaced(
            after,
            part,
            with,
        ));
    } else {
        let less = text::dropped(before, 1);
        assert(s.subrange(0, part.len() as int)[0] == before[0]);
        assert forall|i: int| 0 <= i < less.len() implies #[trigger] less[i] != part[0] by {
            assert(less[i] == before[i + 1]);
        }
        law_part_is_replaced(less, part, after, with);
        assert(text::dropped(s, 1) =~= less + part + after);
        assert(s[0] == before[0]);
        assert(seq![before[0]] + (less + with + text::replaced(after, part, with)) =~= before + with
            + text::replaced(after, part, with));
    }
}

/// A text in which the part does not occur stays as it is.
pub proof fn law_absent_part_changes_nothing(s: Seq<char>, part: Seq<char>, with: Seq<char>)
    requires
        forall|i: int|
            0 <= i && i + part.len() <= s.len() ==> #[trigger] s.subrange(i, i + part.len()) != part,
    ensures
        text::replaced(s, part, with) == s,
    decreases s.len(),
{
    if part.len() > 0 && s.len() >= part.len() {
        let rest = text::dropped(s, 1);
        assert(s.subrange(0int, 0int + part.len()) != part);
        assert forall|i: int| 0 <= i && i + part.len() <= rest.len() implies #[trigger] rest.subrange(
            i,
            i + part.len(),
        ) != part by {
            assert(rest.subrange(i, i + part.len()) =~= s.subrange(i + 1, i + 1 + part.len()));
        }
        law_absent_part_changes_nothing(rest, part, with);
        assert(seq![s[0]] + rest =~= s);
    }
}

proof fn lemma_decimal_digits(n: nat)
    ensures
        forall|i: int|
            0 <= i < text::decimal_text(n).len() ==> text::is_digit(
                #[trigger] text::decimal_text(n)[i],
            ),
    decreases n,
{
    let digit = ((n % 10) + '0' as nat) as char;
    assert(text::is_digit(digit));
    if n >= 10 {
        lemma_decimal_digits(n / 10);
        let before = text::decimal_text(n / 10);
        assert forall|i: int| 0 <= i < text::decimal_text(n).len() implies text::is_digit(
            #[trigger] text::decimal_text(n)[i],
        ) by {
            if i < before.len() {
                assert(text::decimal_text(n)[i] == before[i]);
            } else {
                assert(text::decimal_text(n)[i] == digit);
            }
        }
    } else {
        assert(text::decimal_text(n) =~= seq![digit]);
    }
}

/// No curly bracket opens in the text.
pub open spec fn unbraced(s: Seq<char>) -> bool {
    forall|i: int| 0 <= i < s.len() ==> #[trigger] s[i] != '{'
}

proof fn lemma_unbraced_sum(a: Seq<char>, b: Seq<char>)
    requires
        unbraced(a),
        unbraced(b),
    ensures
        unbraced(a + b),
{
    assert forall|i: int| 0 <= i < (a + b).len() implies #[trigger] (a + b)[i] != '{' by {
        if i < a.len() {
            assert((a + b)[i] == a[i]);
        } else {
            assert((a + b)[i] == b[i - a.len()]);
        }
    }
}

/// In a path `{tick}` stands for the tick in decimal, and `{name}` for the name of the
/// watch. Any other path is taken as it is.
pub proof fn law_paths_are_filled_in(a: Seq<char>, b: Seq<char>, tick: u32, name: Seq<char>)
    requires
        unbraced(a),
        unbraced(b),
    ensures
        script_eval::rendered(a + "{tick}"@ + b, tick, name) == a + text::decimal_text(tick as nat)
            + b,
        script_eval::rendered(a + "{name}"@ + b, tick, name) == a + name + b,
        script_eval::rendered(a, tick, name) == a,
{
    reveal_strlit("{tick}");
    reveal_strlit("{name}");
    let number = text::decimal_text(tick as nat);
    // The path with the tick.
    law_part_is_replaced(a, "{tick}"@, b, number);
    law_nothing_to_replace(b, "{tick}"@, number);
    lemma_decimal_digits(tick as nat);
    assert(unbraced(number));
    lemma_unbraced_sum(a, number);
    lemma_unbraced_sum(a + number, b);
    law_nothing_to_replace(a + number + b, "{name}"@, name);
    // The path with the name.
    let s = a + "{name}"@ + b;
    assert forall|i: int| 0 <= i && i + "{tick}"@.len() <= s.len() implies #[trigger] s.subrange(
        i,
        i + "{tick}"@.len(),
    ) != "{tick}"@ by {
        let here = s.subrange(i, i + 6);
        assert(here[0] == s[i] && here[1] == s[i + 1]);
        if i < a.len() {
            assert(s[i] == a[i]);
        } else if i < a.len() + 6 {
            assert(s[i] == "{name}"@[i - a.len()]);
            if i == a.len() {
                assert(s[i + 1] == "{name}"@[1]);
            }
        } else {
            assert(s[i] == b[i - a.len() - 6]);
        }
    }
    law_absent_part_changes_nothing(s, "{tick}"@, number);
    law_part_is_replaced(a, "{name}"@, b, name);
    law_nothing_to_replace(b, "{name}"@, name);
    // The path with neither.
    law_nothing_to_replace(a, "{tick}"@, number);
    law_nothing_to_replace(a, "{name}"@, name);
}

// ---------------------------------------------------------------------------
// Dictionary order
// ---------------------------------------------------------------------------

/// The first character in which two texts differ decides their order, and a text comes
/// before every longer one that it starts.
pub proof fn law_first_difference_decides(
    a: Seq<char>,
    x: char,
    y: char,
    s: Seq<char>,
    t: Seq<char>,
)
    requires
        x != y,
    ensures
        text::precedes(a.push(x) + s, a.push(y) + t) <==> x < y,
        text::precedes(a, a + s) <==> s.len() > 0,
    decreases a.len(),
{
    let left = a.push(x) + s;
    let right = a.push(y) + t;
    if a.len() > 0 {
        let less = text::dropped(a, 1);
        law_first_difference_decides(less, x, y, s, t);
        assert(left[0] == a[0] && right[0] == a[0] && (a + s)[0] == a[0]);
        assert(text::dropped(left, 1) =~= less.push(x) + s);
        assert(text::dropped(right, 1) =~= less.push(y) + t);
        assert(text::dropped(a + s, 1) =~= less + s);
    } else {
        assert(left[0] == x && right[0] == y);
    }
}

} // verus!
