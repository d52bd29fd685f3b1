//! Character-level helpers on strings.

use vstd::prelude::*;

verus! {

/// `String::push`: appends one character.
pub assume_specification[ std::string::String::push ](s: &mut std::string::String, ch: char)
    ensures
        final(s)@ == old(s)@.push(ch),
;

/// The characters of a string.
pub fn chars_of(s: &str) -> (r: Vec<char>)
    ensures
        r@ == s@,
{
    let mut out: Vec<char> = Vec::new();
    for c in it: s.chars()
        invariant
            out@ == it.seq().subrange(0, it.index() as int),
            it.seq() == s@,
    {
        out.push(c);
        assert(out@ =~= it.seq().subrange(0, it.index() + 1));
    }
    assert(out@ =~= s@);
    out
}

/// The string with the given characters from `from` up to `to`.
pub fn string_from(chars: &Vec<char>, from: usize, to: usize) -> (r: String)
    requires
        from <= to <= chars@.len(),
    ensures
        r@ == chars@.subrange(from as int, to as int),
{
    let mut out = String::new();
    let mut i: usize = from;
    while i < to
        invariant
            from <= i <= to <= chars@.len(),
            out@ == chars@.subrange(from as int, i as int),
        decreases to - i,
    {
        out.push(chars[i]);
        i += 1;
        assert(out@ =~= chars@.subrange(from as int, i as int));
    }
    out
}

/// Do two strings have the same characters?
pub fn same(a: &str, b: &str) -> (r: bool)
    ensures
        r == (a@ == b@),
{
    let x: String = a.to_string();
    let y: String = b.to_string();
    x == y
}

/// Does `s` begin with `prefix`?
pub open spec fn starts_with(s: Seq<char>, prefix: Seq<char>) -> bool {
    prefix.len() <= s.len() && s.subrange(0, prefix.len() as int) == prefix
}

/// Does `s` end with `suffix`?
pub open spec fn ends_with(s: Seq<char>, suffix: Seq<char>) -> bool {
    suffix.len() <= s.len() && s.subrange(s.len() - suffix.len(), s.len() as int) == suffix
}

/// `s` without its first `n` characters.
pub open spec fn dropped(s: Seq<char>, n: int) -> Seq<char> {
    s.subrange(n, s.len() as int)
}

/// Do the characters of `s` from `at` on begin with those of `part`?
pub fn holds_at(s: &Vec<char>, at: usize, part: &Vec<char>) -> (r: bool)
    requires
        at <= s@.len(),
    ensures
        r == (at + part@.len() <= s@.len() && s@.subrange(at as int, at + part@.len()) == part@),
{
    if part.len() > s.len() - at {
        return false;
    }
    let n: usize = s.len();
    let mut i: usize = 0;
    while i < part.len()
        invariant
            i <= part@.len(),
            at + part@.len() <= s@.len() == n,
            forall|j: int| 0 <= j < i ==> s@[at + j] == part@[j],
        decreases part@.len() - i,
    {
        if s[at + i] != part[i] {
            assert(s@.subrange(at as int, at + part@.len())[i as int] != part@[i as int]);
            return false;
        }
        i += 1;
    }
    assert(s@.subrange(at as int, at + part@.len()) =~= part@);
    true
}

/// Does `s` begin with `prefix`?
pub fn begins(s: &str, prefix: &str) -> (r: bool)
    ensures
        r == starts_with(s@, prefix@),
{
    holds_at(&chars_of(s), 0, &chars_of(prefix))
}

/// Does `s` end with `suffix`?
pub fn finishes(s: &str, suffix: &str) -> (r: bool)
    ensures
        r == ends_with(s@, suffix@),
{
    let a = chars_of(s);
    let b = chars_of(suffix);
    if b.len() > a.len() {
        return false;
    }
    holds_at(&a, a.len() - b.len(), &b)
}


/// An ASCII decimal digit.
pub open spec fn is_digit(c: char) -> bool {
    '0' <= c <= '9'
}

/// Only ASCII decimal digits.
pub open spec fn all_digits(s: Seq<char>) -> bool {
    forall|i: int| 0 <= i < s.len() ==> is_digit(#[trigger] s[i])
}

/// The number that a string of decimal digits denotes.
pub open spec fn decimal_value(s: Seq<char>) -> int
    decreases s.len(),
{
    if s.len() == 0 {
        0
    } else {
        decimal_value(s.drop_last()) * 10 + (s.last() as int - '0' as int)
    }
}

/// Appending digits makes a number no smaller.
proof fn lemma_decimal_grows(s: Seq<char>, n: int)
    requires
        all_digits(s),
        0 <= n <= s.len(),
    ensures
        0 <= decimal_value(s.subrange(0, n)) <= decimal_value(s),
    decreases s.len() - n,
{
    assert(s.subrange(0, s.len() as int) =~= s);
    if n < s.len() {
        lemma_decimal_grows(s, n + 1);
        assert(s.subrange(0, n + 1).drop_last() =~= s.subrange(0, n));
        lemma_decimal_nonnegative(s.subrange(0, n));
    } else {
        lemma_decimal_nonnegative(s);
    }
}

/// Digits write no negative number.
pub proof fn lemma_decimal_nonnegative(s: Seq<char>)
    requires
        all_digits(s),
    ensures
        0 <= decimal_value(s),
    decreases s.len(),
{
    if s.len() > 0 {
        assert(is_digit(s[s.len() - 1]));
        assert forall|i: int| 0 <= i < s.drop_last().len() implies is_digit(
            #[trigger] s.drop_last()[i],
        ) by {
            assert(is_digit(s[i]));
        }
        lemma_decimal_nonnegative(s.drop_last());
    }
}

/// The number written in decimal in `chars[from .. to]`, if that is a non-empty
/// run of digits and the number is at most `max`.
pub fn parse_decimal(chars: &Vec<char>, from: usize, to: usize, max: u64) -> (r: Option<u64>)
    requires
        from <= to <= chars@.len(),
    ensures
        ({
            let s = chars@.subrange(from as int, to as int);
            match r {
                Some(v) => s.len() > 0 && all_digits(s) && decimal_value(s) == v && v <= max,
                None => s.len() == 0 || !all_digits(s) || decimal_value(s) > max,
            }
        }),
{
    let ghost s = chars@.subrange(from as int, to as int);
    if from == to {
        return None;
    }
    let mut v: u64 = 0;
    let mut i: usize = from;
    assert(s.subrange(0, 0) =~= Seq::<char>::empty());
    while i < to
        invariant
            from < to <= chars@.len(),
            from <= i <= to,
            s == chars@.subrange(from as int, to as int),
            forall|j: int| 0 <= j < i - from ==> is_digit(#[trigger] s[j]),
            v == decimal_value(s.subrange(0, i - from)),
            v <= max,
        decreases to - i,
    {
        let c: char = chars[i];
        assert(s[i - from] == c);
        if c < '0' || c > '9' {
            assert(!is_digit(s[i - from]));
            return None;
        }
        let d: u64 = (c as u32 - '0' as u32) as u64;
        assert(s.subrange(0, i + 1 - from).drop_last() =~= s.subrange(0, i - from));
        assert(decimal_value(s.subrange(0, i + 1 - from)) == v * 10 + d);
        if v > max / 10 || (v == max / 10 && d > max % 10) {
            proof {
                if all_digits(s) {
                    lemma_decimal_grows(s, i + 1 - from);
                }
            }
            return None;
        }
        v = v * 10 + d;
        i += 1;
    }
    assert(s.subrange(0, i - from) =~= s);
    Some(v)
}

/// A number in decimal.
pub open spec fn decimal_text(n: nat) -> Seq<char>
    decreases n,
{
    if n < 10 {
        seq![(n + '0' as nat) as char]
    } else {
        decimal_text(n / 10).push((n % 10 + '0' as nat) as char)
    }
}

fn digit_char(d: u8) -> (r: char)
    requires
        d < 10,
    ensures
        r == (d + '0' as nat) as char,
{
    (d + 48) as char
}

/// Appends a number in decimal.
pub fn push_decimal(out: &mut String, n: u64)
    ensures
        final(out)@ == old(out)@ + decimal_text(n as nat),
    decreases n,
{
    if n < 10 {
        out.push(digit_char(n as u8));
        assert(out@ =~= old(out)@ + decimal_text(n as nat));
    } else {
        push_decimal(out, n / 10);
        out.push(digit_char((n % 10) as u8));
        assert(out@ =~= old(out)@ + decimal_text(n as nat));
    }
}

/// A string with every occurrence of `part`, found from left to right, replaced.
pub open spec fn replaced(s: Seq<char>, part: Seq<char>, with: Seq<char>) -> Seq<char>
    decreases s.len(),
{
    if part.len() == 0 || s.len() < part.len() {
        s
    } else if starts_with(s, part) {
        with + replaced(dropped(s, part.len() as int), part, with)
    } else {
        seq![s[0]] + replaced(dropped(s, 1), part, with)
    }
}

/// Replaces every occurrence of `part`.
pub fn replace_all(s: &str, part: &str, with: &str) -> (r: String)
    requires
        part@.len() > 0,
    ensures
        r@ == replaced(s@, part@, with@),
{
    let chars = chars_of(s);
    let pattern = chars_of(part);
    let total: usize = chars.len();
    let width: usize = pattern.len();
    let mut out = String::new();
    let mut i: usize = 0;
    assert(dropped(s@, 0) =~= s@);
    assert(out@ + replaced(s@, part@, with@) =~= replaced(s@, part@, with@));
    while i < total && total - i >= width
        invariant
            i <= total == chars@.len(),
            chars@ == s@,
            pattern@ == part@,
            width == part@.len() > 0,
            replaced(s@, part@, with@) == out@ + replaced(dropped(s@, i as int), part@, with@),
        decreases total - i,
    {
        let ghost rest = dropped(s@, i as int);
        assert(rest.subrange(0, width as int) =~= s@.subrange(i as int, i + width));
        if holds_at(&chars, i, &pattern) {
            assert(starts_with(rest, part@));
            out.append(with);
            assert(dropped(rest, width as int) =~= dropped(s@, i + width));
            i += width;
        } else {
            assert(!starts_with(rest, part@));
            out.push(chars[i]);
            assert(dropped(rest, 1) =~= dropped(s@, i + 1));
            assert(rest[0] == s@[i as int]);
            i += 1;
        }
        assert(replaced(s@, part@, with@) =~= out@ + replaced(dropped(s@, i as int), part@, with@));
    }
    let ghost before = out@;
    let ghost from = i as int;
    while i < total
        invariant
            0 <= from <= i <= total == chars@.len(),
            chars@ == s@,
            out@ == before + s@.subrange(from, i as int),
        decreases total - i,
    {
        out.push(chars[i]);
        i += 1;
        assert(out@ =~= before + s@.subrange(from, i as int));
    }
    assert(dropped(s@, from) =~= s@.subrange(from, s@.len() as int));
    assert(replaced(dropped(s@, from), part@, with@) == dropped(s@, from));
    out
}

/// The characters of each string of a list.
pub open spec fn views(v: Seq<String>) -> Seq<Seq<char>> {
    Seq::new(v.len(), |i: int| v[i]@)
}

/// The characters of a string, where there is one.
pub open spec fn maybe_view(s: Option<String>) -> Option<Seq<char>> {
    match s {
        Some(t) => Some(t@),
        None => None,
    }
}

/// Dictionary order by code point: does `a` come before `b`?
pub open spec fn precedes(a: Seq<char>, b: Seq<char>) -> bool
    decreases a.len(),
{
    if b.len() == 0 {
        false
    } else if a.len() == 0 {
        true
    } else if a[0] != b[0] {
        a[0] < b[0]
    } else {
        precedes(dropped(a, 1), dropped(b, 1))
    }
}

/// Dictionary order is irreflexive and total.
pub proof fn lemma_precedes_total(a: Seq<char>, b: Seq<char>)
    ensures
        !(precedes(a, b) && precedes(b, a)),
        a != b ==> precedes(a, b) || precedes(b, a),
    decreases a.len(),
{
    if a.len() > 0 && b.len() > 0 && a[0] == b[0] {
        lemma_precedes_total(dropped(a, 1), dropped(b, 1));
        if dropped(a, 1) == dropped(b, 1) {
            assert forall|i: int| 0 <= i < a.len() implies a[i] == b[i] by {
                if i > 0 {
                    assert(dropped(a, 1)[i - 1] == dropped(b, 1)[i - 1]);
                }
            }
            assert(a =~= b);
        }
    } else if a.len() == 0 && b.len() == 0 {
        assert(a =~= b);
    }
}

/// Dictionary order is transitive.
pub proof fn lemma_precedes_transitive(a: Seq<char>, b: Seq<char>, c: Seq<char>)
    requires
        precedes(a, b),
        precedes(b, c),
    ensures
        precedes(a, c),
    decreases a.len(),
{
    if a.len() > 0 && b.len() > 0 && c.len() > 0 && a[0] == b[0] && b[0] == c[0] {
        lemma_precedes_transitive(dropped(a, 1), dropped(b, 1), dropped(c, 1));
    }
}

/// Does `a` come before `b` in dictionary order by code point?
pub fn comes_before(a: &str, b: &str) -> (r: bool)
    ensures
        r == precedes(a@, b@),
{
    let x = chars_of(a);
    let y = chars_of(b);
    let mut i: usize = 0;
    assert(dropped(x@, 0) =~= x@);
    assert(dropped(y@, 0) =~= y@);
    while i < x.len() && i < y.len()
        invariant
            i <= x@.len(),
            i <= y@.len(),
            x@ == a@,
            y@ == b@,
            precedes(a@, b@) == precedes(dropped(x@, i as int), dropped(y@, i as int)),
        decreases x@.len() - i,
    {
        if x[i] != y[i] {
            return x[i] < y[i];
        }
        assert(dropped(dropped(x@, i as int), 1) =~= dropped(x@, i + 1));
        assert(dropped(dropped(y@, i as int), 1) =~= dropped(y@, i + 1));
        i += 1;
    }
    i < y.len()
}

} // verus!
