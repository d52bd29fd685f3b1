//! Text split into fields, trimmed, and read as numbers.

use crate::text;
use vstd::prelude::*;

verus! {

// ---------------------------------------------------------------------------
// Fields
// ---------------------------------------------------------------------------

/// The parts of a text between separators: one more than there are separators.
pub open spec fn fields(s: Seq<char>, sep: char) -> Seq<Seq<char>>
    decreases s.len(),
{
    if s.len() == 0 {
        seq![Seq::empty()]
    } else {
        let before = fields(s.drop_last(), sep);
        if s.last() == sep {
            before.push(Seq::empty())
        } else {
            before.drop_last().push(before.last().push(s.last()))
        }
    }
}

/// Parts joined by a separator.
pub open spec fn joined(parts: Seq<Seq<char>>, sep: char) -> Seq<char>
    decreases parts.len(),
{
    if parts.len() == 0 {
        Seq::empty()
    } else if parts.len() == 1 {
        parts[0]
    } else {
        joined(parts.drop_last(), sep).push(sep) + parts.last()
    }
}

/// There is always at least one part.
pub proof fn lemma_fields_nonempty(s: Seq<char>, sep: char)
    ensures
        fields(s, sep).len() >= 1,
    decreases s.len(),
{
    if s.len() > 0 {
        lemma_fields_nonempty(s.drop_last(), sep);
    }
}

/// Joining the parts gives the text back.
pub proof fn law_join_undoes_split(s: Seq<char>, sep: char)
    ensures
        joined(fields(s, sep), sep) == s,
    decreases s.len(),
{
    if s.len() > 0 {
        let before = fields(s.drop_last(), sep);
        let now = fields(s, sep);
        law_join_undoes_split(s.drop_last(), sep);
        lemma_fields_nonempty(s.drop_last(), sep);
        if s.last() == sep {
            assert(now.drop_last() =~= before);
            assert(joined(now, sep) =~= s);
        } else {
            assert(now.drop_last() =~= before.drop_last());
            assert(joined(now, sep) =~= joined(before, sep).push(s.last()));
            assert(s =~= s.drop_last().push(s.last()));
        }
    } else {
        assert(joined(fields(s, sep), sep) =~= s);
    }
}

/// Splits a text at a separator.
pub fn split(s: &str, sep: char) -> (r: Vec<String>)
    ensures
        text::views(r@) == fields(s@, sep),
        r@.len() >= 1,
{
    let chars = text::chars_of(s);
    let mut out: Vec<String> = Vec::new();
    let mut last = String::new();
    let mut i: usize = 0;
    assert(s@.subrange(0, 0) =~= Seq::<char>::empty());
    assert(text::views(out@).push(last@) =~= seq![Seq::<char>::empty()]);
    while i < chars.len()
        invariant
            i <= chars@.len(),
            chars@ == s@,
            text::views(out@).push(last@) == fields(s@.subrange(0, i as int), sep),
        decreases chars@.len() - i,
    {
        let ghost before = text::views(out@).push(last@);
        let ghost now = s@.subrange(0, i + 1);
        assert(now.drop_last() =~= s@.subrange(0, i as int));
        assert(now.last() == chars@[i as int]);
        let c: char = chars[i];
        if c == sep {
            let ghost listed = out@;
            let ghost text = last@;
            out.push(last);
            last = String::new();
            assert(text::views(out@) =~= text::views(listed).push(text));
            assert(text::views(out@).push(last@) =~= before.push(Seq::empty()));
        } else {
            let ghost text = last@;
            last.push(c);
            assert(before.drop_last() =~= text::views(out@));
            assert(before.last() == text);
        }
        i += 1;
    }
    assert(s@.subrange(0, i as int) =~= s@);
    let ghost listed = out@;
    out.push(last);
    assert(text::views(out@) =~= text::views(listed).push(last@));
    out
}

/// Joins the parts `from .. to` by a separator.
pub fn join(parts: &Vec<String>, from: usize, to: usize, sep: char) -> (r: String)
    requires
        from <= to <= parts@.len(),
    ensures
        r@ == joined(text::views(parts@).subrange(from as int, to as int), sep),
{
    let ghost all = text::views(parts@).subrange(from as int, to as int);
    let mut out = String::new();
    let mut i: usize = from;
    assert(all.subrange(0, 0) =~= Seq::<Seq<char>>::empty());
    while i < to
        invariant
            from <= i <= to <= parts@.len(),
            all == text::views(parts@).subrange(from as int, to as int),
            out@ == joined(all.subrange(0, i - from), sep),
        decreases to - i,
    {
        let ghost now = all.subrange(0, i + 1 - from);
        assert(now.drop_last() =~= all.subrange(0, i - from));
        assert(now.last() == parts@[i as int]@);
        if i > from {
            out.push(sep);
        } else {
            assert(out@ =~= Seq::<char>::empty());
        }
        out.append(parts[i].as_str());
        assert(out@ =~= joined(now, sep));
        i += 1;
    }
    assert(all.subrange(0, i - from) =~= all);
    out
}

// ---------------------------------------------------------------------------
// White space
// ---------------------------------------------------------------------------

/// A character with the Unicode property `White_Space`.
pub open spec fn is_space(c: char) -> bool {
    let n = c as u32;
    9 <= n <= 13 || n == 0x20 || n == 0x85 || n == 0xA0 || n == 0x1680 || 0x2000 <= n <= 0x200A || n
        == 0x2028 || n == 0x2029 || n == 0x202F || n == 0x205F || n == 0x3000
}

/// A text without the white space at its start and end.
pub open spec fn trimmed(s: Seq<char>) -> Seq<char>
    decreases s.len(),
{
    if s.len() == 0 {
        s
    } else if is_space(s[0]) {
        trimmed(text::dropped(s, 1))
    } else if is_space(s.last()) {
        trimmed(s.drop_last())
    } else {
        s
    }
}

/// Does a character have the property `White_Space`?
fn space(c: char) -> (r: bool)
    ensures
        r == is_space(c),
{
    let n: u32 = c as u32;
    (9 <= n && n <= 13) || n == 0x20 || n == 0x85 || n == 0xA0 || n == 0x1680 || (0x2000 <= n && n
        <= 0x200A) || n == 0x2028 || n == 0x2029 || n == 0x202F || n == 0x205F || n == 0x3000
}

/// Takes the white space off the start and end of a text.
pub fn trim(s: &str) -> (r: String)
    ensures
        r@ == trimmed(s@),
{
    let chars = text::chars_of(s);
    let mut from: usize = 0;
    let mut to: usize = chars.len();
    assert(s@.subrange(0, s@.len() as int) =~= s@);
    while from < to && space(chars[from])
        invariant
            from <= to == chars@.len(),
            chars@ == s@,
            trimmed(s@) == trimmed(s@.subrange(from as int, to as int)),
        decreases to - from,
    {
        assert(text::dropped(s@.subrange(from as int, to as int), 1) =~= s@.subrange(
            from + 1,
            to as int,
        ));
        from += 1;
    }
    while from < to && space(chars[to - 1])
        invariant
            from <= to <= chars@.len(),
            chars@ == s@,
            from < to ==> !is_space(s@[from as int]),
            trimmed(s@) == trimmed(s@.subrange(from as int, to as int)),
        decreases to - from,
    {
        let ghost part = s@.subrange(from as int, to as int);
        assert(part[0] == s@[from as int]);
        assert(part.last() == s@[to - 1]);
        assert(part.drop_last() =~= s@.subrange(from as int, to - 1));
        to -= 1;
    }
    proof {
        let part = s@.subrange(from as int, to as int);
        if from < to {
            assert(part[0] == s@[from as int]);
            assert(part.last() == s@[to - 1]);
        }
    }
    text::string_from(&chars, from, to)
}

/// The trimmed parts of a text that are not empty.
pub open spec fn tokens(parts: Seq<Seq<char>>) -> Seq<Seq<char>>
    decreases parts.len(),
{
    if parts.len() == 0 {
        Seq::empty()
    } else {
        let before = tokens(parts.drop_last());
        if trimmed(parts.last()).len() > 0 {
            before.push(trimmed(parts.last()))
        } else {
            before
        }
    }
}

/// Trims parts and drops the empty ones.
pub fn keep_tokens(parts: &Vec<String>) -> (r: Vec<String>)
    ensures
        text::views(r@) == tokens(text::views(parts@)),
{
    let ghost all = text::views(parts@);
    let mut out: Vec<String> = Vec::new();
    let mut i: usize = 0;
    assert(all.subrange(0, 0) =~= Seq::<Seq<char>>::empty());
    assert(text::views(out@) =~= Seq::<Seq<char>>::empty());
    while i < parts.len()
        invariant
            i <= parts@.len(),
            all == text::views(parts@),
            text::views(out@) == tokens(all.subrange(0, i as int)),
        decreases parts@.len() - i,
    {
        assert(all.subrange(0, i + 1).drop_last() =~= all.subrange(0, i as int));
        assert(all.subrange(0, i + 1).last() == parts@[i as int]@);
        let t: String = trim(parts[i].as_str());
        if t.as_str().unicode_len() > 0 {
            let ghost before = out@;
            let ghost text = t@;
            out.push(t);
            assert(text::views(out@) =~= text::views(before).push(text));
        }
        i += 1;
    }
    assert(all.subrange(0, i as int) =~= all);
    out
}

/// The parts of a text that are not empty.
pub open spec fn nonempty(parts: Seq<Seq<char>>) -> Seq<Seq<char>>
    decreases parts.len(),
{
    if parts.len() == 0 {
        Seq::empty()
    } else {
        let before = nonempty(parts.drop_last());
        if parts.last().len() > 0 {
            before.push(parts.last())
        } else {
            before
        }
    }
}

/// Drops the empty parts.
pub fn keep_nonempty(parts: &Vec<String>) -> (r: Vec<String>)
    ensures
        text::views(r@) == nonempty(text::views(parts@)),
{
    let ghost all = text::views(parts@);
    let mut out: Vec<String> = Vec::new();
    let mut i: usize = 0;
    assert(all.subrange(0, 0) =~= Seq::<Seq<char>>::empty());
    assert(text::views(out@) =~= Seq::<Seq<char>>::empty());
    while i < parts.len()
        invariant
            i <= parts@.len(),
            all == text::views(parts@),
            text::views(out@) == nonempty(all.subrange(0, i as int)),
        decreases parts@.len() - i,
    {
        assert(all.subrange(0, i + 1).drop_last() =~= all.subrange(0, i as int));
        assert(all.subrange(0, i + 1).last() == parts@[i as int]@);
        if parts[i].as_str().unicode_len() > 0 {
            let ghost before = out@;
            out.push(parts[i].clone());
            assert(text::views(out@) =~= text::views(before).push(parts@[i as int]@));
        }
        i += 1;
    }
    assert(all.subrange(0, i as int) =~= all);
    out
}

// ---------------------------------------------------------------------------
// Cutting
// ---------------------------------------------------------------------------

/// Position of the first occurrence of `part` from `i` on.
pub open spec fn position(s: Seq<char>, part: Seq<char>, i: int) -> Option<int>
    decreases s.len() - i,
{
    if i + part.len() > s.len() || i >= s.len() {
        None
    } else if s.subrange(i, i + part.len()) == part {
        Some(i)
    } else {
        position(s, part, i + 1)
    }
}

/// What stands before and after the first occurrence of `part`.
pub open spec fn cut(s: Seq<char>, part: Seq<char>) -> Option<(Seq<char>, Seq<char>)> {
    match position(s, part, 0) {
        Some(i) => Some((s.subrange(0, i), text::dropped(s, i + part.len()))),
        None => None,
    }
}

/// Cuts a text at the first occurrence of `part`.
pub fn cut_at(s: &str, part: &str) -> (r: Option<(String, String)>)
    requires
        part@.len() > 0,
    ensures
        match r {
            Some((a, b)) => cut(s@, part@) == Some((a@, b@)),
            None => cut(s@, part@) is None,
        },
{
    let chars = text::chars_of(s);
    let pattern = text::chars_of(part);
    let total: usize = chars.len();
    let width: usize = pattern.len();
    let mut i: usize = 0;
    while i < total && total - i >= width
        invariant
            i <= total == chars@.len(),
            chars@ == s@,
            pattern@ == part@,
            width == part@.len() > 0,
            position(s@, part@, 0) == position(s@, part@, i as int),
        decreases total - i,
    {
        if text::holds_at(&chars, i, &pattern) {
            let before: String = text::string_from(&chars, 0, i);
            let after: String = text::string_from(&chars, i + width, total);
            return Some((before, after));
        }
        i += 1;
    }
    None
}

/// What follows a prefix.
pub open spec fn after_prefix(s: Seq<char>, prefix: Seq<char>) -> Option<Seq<char>> {
    if text::starts_with(s, prefix) {
        Some(text::dropped(s, prefix.len() as int))
    } else {
        None
    }
}

/// Takes a prefix off a text.
pub fn strip(s: &str, prefix: &str) -> (r: Option<String>)
    ensures
        match r {
            Some(t) => after_prefix(s@, prefix@) == Some(t@),
            None => after_prefix(s@, prefix@) is None,
        },
{
    if text::begins(s, prefix) {
        let chars = text::chars_of(s);
        let n: usize = prefix.unicode_len();
        Some(text::string_from(&chars, n, chars.len()))
    } else {
        None
    }
}

// ---------------------------------------------------------------------------
// Numbers
// ---------------------------------------------------------------------------

/// The value of a digit, if it is one.
pub open spec fn digit(c: char, radix: int) -> Option<int> {
    if '0' <= c && c <= '9' {
        Some(c as int - '0' as int)
    } else if radix == 16 && 'a' <= c && c <= 'f' {
        Some(c as int - 'a' as int + 10)
    } else if radix == 16 && 'A' <= c && c <= 'F' {
        Some(c as int - 'A' as int + 10)
    } else {
        None
    }
}

/// The number that digits write, if all characters are digits.
pub open spec fn magnitude(s: Seq<char>, radix: int) -> Option<int>
    decreases s.len(),
{
    if s.len() == 0 {
        Some(0)
    } else {
        match (magnitude(s.drop_last(), radix), digit(s.last(), radix)) {
            (Some(m), Some(d)) => Some(m * radix + d),
            _ => None,
        }
    }
}

/// The number that an optional sign and digits write, if it fits.
pub open spec fn signed(s: Seq<char>, radix: int) -> Option<i64> {
    let negative = s.len() > 0 && s[0] == '-';
    let digits = if s.len() > 0 && (s[0] == '-' || s[0] == '+') {
        text::dropped(s, 1)
    } else {
        s
    };
    match magnitude(digits, radix) {
        Some(m) => {
            let v = if negative {
                -m
            } else {
                m
            };
            if digits.len() > 0 && i64::MIN <= v <= i64::MAX {
                Some(v as i64)
            } else {
                None
            }
        },
        None => None,
    }
}

/// The number that a text writes: decimal, or hexadecimal after `0x`.
pub open spec fn number(s: Seq<char>) -> Option<i64> {
    let t = trimmed(s);
    match after_prefix(t, "0x"@) {
        Some(h) => signed(h, 16),
        None => match after_prefix(t, "0X"@) {
            Some(h) => signed(h, 16),
            None => signed(t, 10),
        },
    }
}

/// More digits do not make a number smaller.
proof fn lemma_magnitude_grows(s: Seq<char>, n: int, radix: int)
    requires
        0 <= n <= s.len(),
        radix >= 2,
        magnitude(s, radix) is Some,
    ensures
        magnitude(s.subrange(0, n), radix) is Some,
        0 <= magnitude(s.subrange(0, n), radix)->0 <= magnitude(s, radix)->0,
    decreases s.len(),
{
    if n == s.len() {
        assert(s.subrange(0, n) =~= s);
        if n > 0 {
            lemma_magnitude_grows(s.drop_last(), n - 1, radix);
            assert(s.drop_last().subrange(0, n - 1) =~= s.drop_last());
            let m = magnitude(s.drop_last(), radix)->0;
            assert(m * radix >= 0) by (nonlinear_arith)
                requires
                    m >= 0,
                    radix >= 2,
            ;
        }
    } else {
        assert(s.drop_last().subrange(0, n) =~= s.subrange(0, n));
        lemma_magnitude_grows(s.drop_last(), n, radix);
        let m = magnitude(s.drop_last(), radix)->0;
        assert(m * radix >= m) by (nonlinear_arith)
            requires
                m >= 0,
                radix >= 2,
        ;
    }
}

/// Reads a digit.
fn read_digit(c: char, radix: u64) -> (r: Option<u64>)
    ensures
        match r {
            Some(d) => d < 16 && digit(c, radix as int) == Some(d as int),
            None => digit(c, radix as int) is None,
        },
{
    let n: u32 = c as u32;
    if 48 <= n && n <= 57 {
        Some((n - 48) as u64)
    } else if radix == 16 && 97 <= n && n <= 102 {
        Some((n - 97 + 10) as u64)
    } else if radix == 16 && 65 <= n && n <= 70 {
        Some((n - 65 + 10) as u64)
    } else {
        None
    }
}

/// Reads digits, as long as the number is at most 2^63.
fn read_magnitude(chars: &Vec<char>, from: usize, radix: u64) -> (r: Option<u64>)
    requires
        from <= chars@.len(),
        radix == 10 || radix == 16,
    ensures
        match r {
            Some(m) => m <= 0x8000_0000_0000_0000 && magnitude(
                text::dropped(chars@, from as int),
                radix as int,
            ) == Some(m as int),
            None => match magnitude(text::dropped(chars@, from as int), radix as int) {
                Some(m) => m > 0x8000_0000_0000_0000,
                None => true,
            },
        },
{
    let ghost all = text::dropped(chars@, from as int);
    let mut m: u64 = 0;
    let mut i: usize = from;
    assert(all.subrange(0, 0) =~= Seq::<char>::empty());
    while i < chars.len()
        invariant
            from <= i <= chars@.len(),
            radix == 10 || radix == 16,
            all == text::dropped(chars@, from as int),
            m <= 0x8000_0000_0000_0000,
            magnitude(all.subrange(0, i - from), radix as int) == Some(m as int),
        decreases chars@.len() - i,
    {
        let ghost now = all.subrange(0, i + 1 - from);
        proof {
            assert(now.drop_last() =~= all.subrange(0, i - from));
            assert(now.last() == chars@[i as int]);
            if magnitude(all, radix as int) is Some {
                lemma_magnitude_grows(all, i + 1 - from, radix as int);
            }
        }
        match read_digit(chars[i], radix) {
            None => {
                return None;
            },
            Some(d) => {
                let next: u128 = (m as u128) * (radix as u128) + (d as u128);
                if next > 0x8000_0000_0000_0000 {
                    return None;
                }
                m = next as u64;
            },
        }
        i += 1;
    }
    assert(all.subrange(0, i - from) =~= all);
    Some(m)
}

/// Reads an optional sign and digits.
fn read_signed(s: &str, radix: u64) -> (r: Option<i64>)
    requires
        radix == 10 || radix == 16,
    ensures
        r == signed(s@, radix as int),
{
    let chars = text::chars_of(s);
    let mut negative = false;
    let mut from: usize = 0;
    if chars.len() > 0 {
        if chars[0] == '-' {
            negative = true;
            from = 1;
        } else if chars[0] == '+' {
            from = 1;
        }
    }
    let ghost digits = text::dropped(s@, from as int);
    assert(from == 0 ==> digits =~= s@);
    if from == chars.len() {
        return None;
    }
    match read_magnitude(&chars, from, radix) {
        None => None,
        Some(m) => {
            if negative {
                Some((-(m as i128)) as i64)
            } else if m <= 0x7FFF_FFFF_FFFF_FFFF {
                Some(m as i64)
            } else {
                None
            }
        },
    }
}

/// Reads a number: decimal, or hexadecimal after `0x`.
pub fn read_number(s: &str) -> (r: Option<i64>)
    ensures
        r == number(s@),
{
    let t: String = trim(s);
    match strip(t.as_str(), "0x") {
        Some(h) => read_signed(h.as_str(), 16),
        None => match strip(t.as_str(), "0X") {
            Some(h) => read_signed(h.as_str(), 16),
            None => read_signed(t.as_str(), 10),
        },
    }
}

} // verus!
