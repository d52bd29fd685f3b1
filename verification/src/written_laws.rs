//! What written tests, kinds, actions and watches say.

use crate::fields;
use crate::script::{ActionModel, KindModel, PredicateModel, WatchModel};
use crate::script_spec;
use crate::text;
use vstd::prelude::*;

verus! {

// ---------------------------------------------------------------------------
// Fields of joined texts
// ---------------------------------------------------------------------------

/// The text does not hold the character.
pub open spec fn plain(s: Seq<char>, c: char) -> bool {
    forall|i: int| 0 <= i < s.len() ==> #[trigger] s[i] != c
}

/// None of the texts holds the character.
pub open spec fn all_plain(parts: Seq<Seq<char>>, c: char) -> bool {
    forall|i: int| 0 <= i < parts.len() ==> plain(#[trigger] parts[i], c)
}

/// The text starts and ends with a character that is no white space.
pub open spec fn neat(s: Seq<char>) -> bool {
    s.len() > 0 && !fields::is_space(s[0]) && !fields::is_space(s.last())
}

proof fn lemma_fields_of_more(s: Seq<char>, t: Seq<char>, sep: char)
    requires
        plain(t, sep),
    ensures
        fields::fields(s.push(sep) + t, sep) == fields::fields(s, sep).push(t),
    decreases t.len(),
{
    let whole = s.push(sep) + t;
    if t.len() == 0 {
        assert(whole =~= s.push(sep));
        assert(whole.drop_last() =~= s);
        assert(t =~= Seq::<char>::empty());
    } else {
        let less = t.drop_last();
        assert(whole.drop_last() =~= s.push(sep) + less);
        assert(forall|i: int| 0 <= i < less.len() ==> less[i] == t[i]);
        lemma_fields_of_more(s, less, sep);
        assert(whole.last() == t[t.len() - 1]);
        let before = fields::fields(s, sep).push(less);
        assert(before.drop_last() =~= fields::fields(s, sep));
        assert(less.push(t.last()) =~= t);
    }
}

proof fn lemma_fields_of_one(s: Seq<char>, sep: char)
    requires
        plain(s, sep),
    ensures
        fields::fields(s, sep) == seq![s],
    decreases s.len(),
{
    if s.len() > 0 {
        let less = s.drop_last();
        assert(forall|i: int| 0 <= i < less.len() ==> less[i] == s[i]);
        lemma_fields_of_one(less, sep);
        assert(s[s.len() - 1] != sep);
        assert(less.push(s.last()) =~= s);
        assert(fields::fields(s, sep) =~= seq![s]);
    } else {
        assert(s =~= Seq::<char>::empty());
        assert(fields::fields(s, sep) =~= seq![s]);
    }
}

/// Splitting texts that were joined gives them back, if none of them holds the
/// separator.
pub proof fn law_split_undoes_join(parts: Seq<Seq<char>>, sep: char)
    requires
        parts.len() > 0,
        all_plain(parts, sep),
    ensures
        fields::fields(fields::joined(parts, sep), sep) == parts,
    decreases parts.len(),
{
    if parts.len() == 1 {
        assert(plain(parts[0], sep));
        lemma_fields_of_one(parts[0], sep);
        assert(seq![parts[0]] =~= parts);
    } else {
        let less = parts.drop_last();
        assert(all_plain(less, sep)) by {
            assert forall|i: int| 0 <= i < less.len() implies plain(#[trigger] less[i], sep) by {
                assert(less[i] == parts[i]);
            }
        }
        law_split_undoes_join(less, sep);
        assert(plain(parts[parts.len() - 1], sep));
        lemma_fields_of_more(fields::joined(less, sep), parts.last(), sep);
        assert(less.push(parts.last()) =~= parts);
    }
}

proof fn lemma_after_prefix(prefix: Seq<char>, rest: Seq<char>)
    ensures
        fields::after_prefix(prefix + rest, prefix) == Some(rest),
        text::starts_with(prefix + rest, prefix),
        text::dropped(prefix + rest, prefix.len() as int) == rest,
{
    let s = prefix + rest;
    assert(s.subrange(0, prefix.len() as int) =~= prefix);
    assert(text::dropped(s, prefix.len() as int) =~= rest);
}

// ---------------------------------------------------------------------------
// Tests
// ---------------------------------------------------------------------------

proof fn lemma_position(s: Seq<char>, part: Seq<char>, from: int, at: int)
    requires
        0 <= from <= at,
        at + part.len() <= s.len(),
        part.len() > 0,
        s.subrange(at, at + part.len()) == part,
        forall|i: int| from <= i < at ==> #[trigger] s[i] != part[0],
    ensures
        fields::position(s, part, from) == Some(at),
    decreases at - from,
{
    if from < at {
        assert(s.subrange(from, from + part.len())[0] == s[from]);
        lemma_position(s, part, from + 1, at);
    }
}

proof fn lemma_cut(a: Seq<char>, part: Seq<char>, b: Seq<char>)
    requires
        part.len() > 0,
        plain(a, part[0]),
    ensures
        fields::cut(a + part + b, part) == Some((a, b)),
{
    let s = a + part + b;
    assert(s.subrange(a.len() as int, (a.len() + part.len()) as int) =~= part);
    assert forall|i: int| 0 <= i < a.len() implies #[trigger] s[i] != part[0] by {
        assert(s[i] == a[i]);
    }
    lemma_position(s, part, 0, a.len() as int);
    assert(s.subrange(0, a.len() as int) =~= a);
    assert(text::dropped(s, (a.len() + part.len()) as int) =~= b);
}

proof fn lemma_no_position(s: Seq<char>, part: Seq<char>, from: int)
    requires
        0 <= from,
        part.len() > 0,
        plain(s, part[0]),
    ensures
        fields::position(s, part, from) is None,
    decreases s.len() - from,
{
    if from + part.len() <= s.len() && from < s.len() {
        assert(s.subrange(from, from + part.len())[0] == s[from]);
        lemma_no_position(s, part, from + 1);
    }
}

/// A test of a byte: the number before `=` is its address, the one behind it its
/// value, each cut to its width. With `!=` in place of `=` the test asks for any other
/// byte.
pub proof fn law_written_byte_tests(a: Seq<char>, v: Seq<char>, addr: i64, val: i64)
    requires
        fields::number(a) == Some(addr),
        fields::number(v) == Some(val),
        plain(a, '='),
        plain(a, '!'),
        plain(v, '!'),
        plain(a, '@'),
        plain(v, '@'),
    ensures
        script_spec::test_of(a + "="@ + v) == Ok::<PredicateModel, script_spec::ErrorModel>(
            PredicateModel::ByteEq { addr: addr as i32, val: val as u8 },
        ),
        script_spec::test_of(a + "!="@ + v) == Ok::<PredicateModel, script_spec::ErrorModel>(
            PredicateModel::ByteNe { addr: addr as i32, val: val as u8 },
        ),
{
    reveal_strlit("=");
    reveal_strlit("!=");
    reveal_strlit("pattern@");
    let eq = a + "="@ + v;
    let ne = a + "!="@ + v;
    assert(plain(eq, '@') && plain(ne, '@') && plain(eq, '!')) by {
        assert forall|i: int| 0 <= i < eq.len() implies eq[i] != '@' && #[trigger] eq[i] != '!' by {
            if i > a.len() {
                assert(eq[i] == v[i - a.len() - 1]);
            }
        }
        assert forall|i: int| 0 <= i < ne.len() implies #[trigger] ne[i] != '@' by {
            if i >= a.len() + 2 {
                assert(ne[i] == v[i - a.len() - 2]);
            }
        }
    }
    assert(!text::starts_with(eq, "pattern@"@)) by {
        if text::starts_with(eq, "pattern@"@) {
            assert(eq.subrange(0, 8)[7] == eq[7]);
        }
    }
    assert(!text::starts_with(ne, "pattern@"@)) by {
        if text::starts_with(ne, "pattern@"@) {
            assert(ne.subrange(0, 8)[7] == ne[7]);
        }
    }
    lemma_no_position(eq, "!="@, 0);
    lemma_cut(a, "="@, v);
    lemma_cut(a, "!="@, v);
}

/// A test for a pattern: the base, the stride and the window are the numbers between
/// `pattern@` and `=`, and the needle is the bytes of all that follows.
pub proof fn law_written_pattern(parts: Seq<Seq<char>>, needle: Seq<char>, n: Seq<i64>)
    requires
        parts.len() == 3,
        n.len() == 3,
        all_plain(parts, ':'),
        all_plain(parts, '='),
        forall|i: int| 0 <= i < 3 ==> fields::number(#[trigger] parts[i]) == Some(n[i]),
    ensures
        script_spec::test_of(
            "pattern@"@ + (fields::joined(parts, ':') + "="@ + needle),
        ) == Ok::<PredicateModel, script_spec::ErrorModel>(
            PredicateModel::Pattern {
                base: n[0] as i32,
                stride: n[1] as u32,
                window: n[2] as u32,
                needle: vstd::utf8::encode_utf8(needle),
            },
        ),
{
    reveal_strlit("=");
    let head = fields::joined(parts, ':');
    law_split_undoes_join(parts, ':');
    lemma_joined_is_plain(parts, ':', '=');
    lemma_cut(head, "="@, needle);
    lemma_after_prefix("pattern@"@, head + "="@ + needle);
}

proof fn lemma_joined_is_plain(parts: Seq<Seq<char>>, sep: char, c: char)
    requires
        all_plain(parts, c),
        c != sep,
    ensures
        plain(fields::joined(parts, sep), c),
    decreases parts.len(),
{
    if parts.len() == 1 {
        assert(plain(parts[0], c));
    } else if parts.len() > 1 {
        let less = parts.drop_last();
        assert(all_plain(less, c)) by {
            assert forall|i: int| 0 <= i < less.len() implies plain(#[trigger] less[i], c) by {
                assert(less[i] == parts[i]);
            }
        }
        lemma_joined_is_plain(less, sep, c);
        let before = fields::joined(less, sep);
        let last = parts[parts.len() - 1];
        assert(plain(last, c));
        let now = before.push(sep) + last;
        assert forall|i: int| 0 <= i < now.len() implies #[trigger] now[i] != c by {
            if i < before.len() {
                assert(now[i] == before[i]);
            } else if i > before.len() {
                assert(now[i] == last[i - before.len() - 1]);
            }
        }
    }
}

// ---------------------------------------------------------------------------
// Kinds
// ---------------------------------------------------------------------------

proof fn lemma_keyed_number(key: Seq<char>, t: Seq<char>, v: i64)
    requires
        fields::number(t) == Some(v),
    ensures
        script_spec::keyed_number(key.push('=') + t, key) == Ok::<i64, script_spec::ErrorModel>(v),
{
    lemma_after_prefix(key.push('='), t);
}

proof fn lemma_kind_words()
    ensures
        "stride"@ != "at"@,
        "stride"@ != "burst"@,
        "stride"@ != "edge"@,
        "stride"@ != "cond"@,
        "stride"@ != "halt"@,
        "burst"@ != "at"@,
        "burst"@ != "edge"@,
        "burst"@ != "cond"@,
        "burst"@ != "halt"@,
        "at"@ != "edge"@,
        "at"@ != "cond"@,
        "at"@ != "halt"@,
        "edge"@ != "cond"@,
        "edge"@ != "halt"@,
        "cond"@ != "halt"@,
        "every="@ == "every"@.push('='),
        "tick="@ == "tick"@.push('='),
        "addr="@ == "addr"@.push('='),
{
    reveal_strlit("stride");
    reveal_strlit("burst");
    reveal_strlit("at");
    reveal_strlit("edge");
    reveal_strlit("cond");
    reveal_strlit("halt");
    reveal_strlit("every");
    reveal_strlit("every=");
    reveal_strlit("tick");
    reveal_strlit("tick=");
    reveal_strlit("addr");
    reveal_strlit("addr=");
    assert("stride"@.len() == 6 && "burst"@.len() == 5 && "at"@.len() == 2);
    assert("edge"@.len() == 4 && "cond"@.len() == 4 && "halt"@.len() == 4);
    assert("edge"@[0] != "cond"@[0]);
    assert("edge"@[0] != "halt"@[0]);
    assert("cond"@[0] != "halt"@[0]);
    assert("every="@ =~= "every"@.push('='));
    assert("tick="@ =~= "tick"@.push('='));
    assert("addr="@ =~= "addr"@.push('='));
}

/// A stride has its period behind `every=`, a moment its tick behind `tick=`, an edge
/// and a halt their address behind `addr=`.
pub proof fn law_written_kinds(t: Seq<char>, v: i64, name: Seq<char>)
    requires
        fields::number(t) == Some(v),
    ensures
        script_spec::kind_of("stride"@, "every="@ + t, name) == Ok::<
            KindModel,
            script_spec::ErrorModel,
        >(KindModel::Stride { every: v as u32, last: 0 }),
        script_spec::kind_of("at"@, "tick="@ + t, name) == Ok::<
            KindModel,
            script_spec::ErrorModel,
        >(KindModel::At { tick: v as u32 }),
        script_spec::kind_of("edge"@, "addr="@ + t, name) == Ok::<
            KindModel,
            script_spec::ErrorModel,
        >(KindModel::Edge { addr: v as i32, last: 0, primed: false }),
        script_spec::kind_of("halt"@, "addr="@ + t, name) == Ok::<
            KindModel,
            script_spec::ErrorModel,
        >(KindModel::Halt { addr: v as i32 }),
{
    lemma_kind_words();
    lemma_keyed_number("every"@, t, v);
    lemma_keyed_number("tick"@, t, v);
    lemma_keyed_number("addr"@, t, v);
}

proof fn lemma_neat_field(key: Seq<char>, t: Seq<char>)
    requires
        key.len() > 0,
        !fields::is_space(key[0]),
        neat(t),
    ensures
        fields::trimmed(key + t) == key + t,
{
    assert((key + t)[0] == key[0]);
    assert((key + t).last() == t.last());
}

proof fn lemma_burst_fields(a: Seq<char>, b: Seq<char>)
    requires
        plain(a, ','),
        plain(b, ','),
    ensures
        fields::fields(fields::joined(seq![a, b], ','), ',') == seq![a, b],
        script_spec::burst_fields(seq![a, b]) == match script_spec::with_burst_field(
            script_spec::BurstModel { every: None, count: None },
            a,
        ) {
            Err(e) => Err(e),
            Ok(m) => script_spec::with_burst_field(m, b),
        },
{
    let list = seq![a, b];
    assert(all_plain(list, ','));
    law_split_undoes_join(list, ',');
    assert(list.drop_last() =~= seq![a]);
    assert(seq![a].drop_last() =~= Seq::<Seq<char>>::empty());
    reveal_with_fuel(script_spec::burst_fields, 3);
}

proof fn lemma_burst_field(t: Seq<char>, u: Seq<char>, every: i64, count: i64)
    requires
        fields::number(t) == Some(every),
        fields::number(u) == Some(count),
        neat(t),
        neat(u),
        plain(t, ','),
        plain(u, ','),
    ensures
        plain("every="@ + t, ','),
        plain("count="@ + u, ','),
        forall|m: script_spec::BurstModel|
            #[trigger] script_spec::with_burst_field(m, "every="@ + t) == Ok::<
                script_spec::BurstModel,
                script_spec::ErrorModel,
            >(script_spec::BurstModel { every: Some(every as u32), ..m }),
        forall|m: script_spec::BurstModel|
            #[trigger] script_spec::with_burst_field(m, "count="@ + u) == Ok::<
                script_spec::BurstModel,
                script_spec::ErrorModel,
            >(script_spec::BurstModel { count: Some(count as u32), ..m }),
{
    reveal_strlit("every=");
    reveal_strlit("count=");
    let a = "every="@ + t;
    let b = "count="@ + u;
    lemma_neat_field("every="@, t);
    lemma_neat_field("count="@, u);
    lemma_after_prefix("every="@, t);
    lemma_after_prefix("count="@, u);
    assert(!text::starts_with(b, "every="@)) by {
        if text::starts_with(b, "every="@) {
            assert(b.subrange(0, 6)[0] == b[0]);
        }
    }
    assert(plain(a, ',')) by {
        assert forall|i: int| 0 <= i < a.len() implies #[trigger] a[i] != ',' by {
            if i >= 6 {
                assert(a[i] == t[i - 6]);
            }
        }
    }
    assert(plain(b, ',')) by {
        assert forall|i: int| 0 <= i < b.len() implies #[trigger] b[i] != ',' by {
            if i >= 6 {
                assert(b[i] == u[i - 6]);
            }
        }
    }
}

proof fn lemma_burst_kind(s: Seq<char>, name: Seq<char>)
    ensures
        script_spec::kind_of("burst"@, s, name) == script_spec::burst_of(s),
{
    lemma_kind_words();
}

proof fn lemma_burst_of(a: Seq<char>, b: Seq<char>, m: script_spec::BurstModel, every: u32, count: u32)
    requires
        plain(a, ','),
        plain(b, ','),
        script_spec::with_burst_field(script_spec::BurstModel { every: None, count: None }, a)
            == Ok::<script_spec::BurstModel, script_spec::ErrorModel>(m),
        script_spec::with_burst_field(m, b) == Ok::<
            script_spec::BurstModel,
            script_spec::ErrorModel,
        >(script_spec::BurstModel { every: Some(every), count: Some(count) }),
    ensures
        script_spec::burst_of(fields::joined(seq![a, b], ',')) == Ok::<
            KindModel,
            script_spec::ErrorModel,
        >(KindModel::Burst { every, count }),
{
    lemma_burst_fields(a, b);
}

/// A burst has its period behind `every=` and its length behind `count=`, in either
/// order.
pub proof fn law_written_burst(t: Seq<char>, u: Seq<char>, every: i64, count: i64, name: Seq<char>)
    requires
        fields::number(t) == Some(every),
        fields::number(u) == Some(count),
        neat(t),
        neat(u),
        plain(t, ','),
        plain(u, ','),
    ensures
        script_spec::kind_of(
            "burst"@,
            fields::joined(seq!["every="@ + t, "count="@ + u], ','),
            name,
        ) == Ok::<KindModel, script_spec::ErrorModel>(
            KindModel::Burst { every: every as u32, count: count as u32 },
        ),
        script_spec::kind_of(
            "burst"@,
            fields::joined(seq!["count="@ + u, "every="@ + t], ','),
            name,
        ) == Ok::<KindModel, script_spec::ErrorModel>(
            KindModel::Burst { every: every as u32, count: count as u32 },
        ),
{
    let a = "every="@ + t;
    let b = "count="@ + u;
    let period = script_spec::BurstModel { every: Some(every as u32), count: None };
    let length = script_spec::BurstModel { every: None, count: Some(count as u32) };
    lemma_burst_field(t, u, every, count);
    lemma_burst_of(a, b, period, every as u32, count as u32);
    lemma_burst_of(b, a, length, every as u32, count as u32);
    lemma_burst_kind(fields::joined(seq![a, b], ','), name);
    lemma_burst_kind(fields::joined(seq![b, a], ','), name);
}

/// All texts are neat.
pub open spec fn all_neat(parts: Seq<Seq<char>>) -> bool {
    forall|i: int| 0 <= i < parts.len() ==> neat(#[trigger] parts[i])
}

proof fn lemma_neat_tokens(parts: Seq<Seq<char>>)
    requires
        all_neat(parts),
    ensures
        fields::tokens(parts) == parts,
    decreases parts.len(),
{
    if parts.len() > 0 {
        let less = parts.drop_last();
        assert forall|i: int| 0 <= i < less.len() implies neat(#[trigger] less[i]) by {
            assert(less[i] == parts[i]);
        }
        lemma_neat_tokens(less);
        assert(neat(parts[parts.len() - 1]));
        assert(less.push(parts.last()) =~= parts);
    } else {
        assert(fields::tokens(parts) =~= parts);
    }
}

proof fn lemma_tests(toks: Seq<Seq<char>>, tests: Seq<PredicateModel>)
    requires
        tests.len() == toks.len(),
        forall|i: int|
            0 <= i < toks.len() ==> #[trigger] toks[i] != "repeat"@ && script_spec::test_of(toks[i])
                == Ok::<PredicateModel, script_spec::ErrorModel>(tests[i]),
    ensures
        script_spec::tests_of(toks) == Ok::<Seq<PredicateModel>, script_spec::ErrorModel>(tests),
    decreases toks.len(),
{
    if toks.len() > 0 {
        let less = toks.drop_last();
        assert forall|i: int| 0 <= i < less.len() implies #[trigger] less[i] != "repeat"@
            && script_spec::test_of(less[i]) == Ok::<PredicateModel, script_spec::ErrorModel>(
            tests.drop_last()[i],
        ) by {
            assert(less[i] == toks[i]);
        }
        lemma_tests(less, tests.drop_last());
        assert(toks[toks.len() - 1] == toks.last());
        assert(tests.drop_last().push(tests.last()) =~= tests);
    } else {
        assert(tests =~= Seq::<PredicateModel>::empty());
    }
}

proof fn lemma_cond_tokens(toks: Seq<Seq<char>>)
    requires
        toks.len() > 0,
        all_plain(toks, ','),
        all_neat(toks),
    ensures
        fields::tokens(fields::fields(fields::joined(toks, ','), ',')) == toks,
{
    law_split_undoes_join(toks, ',');
    lemma_neat_tokens(toks);
}

proof fn lemma_with_repeat(toks: Seq<Seq<char>>)
    requires
        all_plain(toks, ','),
        all_neat(toks),
    ensures
        all_plain(toks.push("repeat"@), ','),
        all_neat(toks.push("repeat"@)),
        toks.push("repeat"@).contains("repeat"@),
        script_spec::tests_of(toks.push("repeat"@)) == script_spec::tests_of(toks),
{
    reveal_strlit("repeat");
    let more = toks.push("repeat"@);
    assert(plain("repeat"@, ',') && neat("repeat"@));
    assert(all_plain(more, ',')) by {
        assert forall|i: int| 0 <= i < more.len() implies plain(#[trigger] more[i], ',') by {
            if i < toks.len() {
                assert(more[i] == toks[i]);
            }
        }
    }
    assert(all_neat(more)) by {
        assert forall|i: int| 0 <= i < more.len() implies neat(#[trigger] more[i]) by {
            if i < toks.len() {
                assert(more[i] == toks[i]);
            }
        }
    }
    assert(more.drop_last() =~= toks);
    assert(more[more.len() - 1] == "repeat"@);
}

/// A condition has the tests between its commas, in their order. It comes again once
/// it has failed only if the word `repeat` stands among them.
pub proof fn law_written_condition(
    toks: Seq<Seq<char>>,
    tests: Seq<PredicateModel>,
    name: Seq<char>,
)
    requires
        toks.len() > 0,
        tests.len() == toks.len(),
        all_plain(toks, ','),
        all_neat(toks),
        forall|i: int|
            0 <= i < toks.len() ==> #[trigger] toks[i] != "repeat"@ && script_spec::test_of(toks[i])
                == Ok::<PredicateModel, script_spec::ErrorModel>(tests[i]),
    ensures
        script_spec::kind_of("cond"@, fields::joined(toks, ','), name) == Ok::<
            KindModel,
            script_spec::ErrorModel,
        >(KindModel::Cond { tests, repeat: false, fired: false, held: false }),
        script_spec::kind_of("cond"@, fields::joined(toks.push("repeat"@), ','), name) == Ok::<
            KindModel,
            script_spec::ErrorModel,
        >(KindModel::Cond { tests, repeat: true, fired: false, held: false }),
{
    lemma_kind_words();
    lemma_tests(toks, tests);
    lemma_cond_tokens(toks);
    assert(!toks.contains("repeat"@));
    lemma_with_repeat(toks);
    let more = toks.push("repeat"@);
    lemma_cond_tokens(more);
}

// ---------------------------------------------------------------------------
// Watches
// ---------------------------------------------------------------------------

/// No field from the third on starts a suffix.
pub open spec fn no_suffix(parts: Seq<Seq<char>>) -> bool {
    forall|i: int| 2 <= i < parts.len() ==> !script_spec::starts_suffix(#[trigger] parts[i])
}

proof fn lemma_suffix_start(parts: Seq<Seq<char>>, from: int)
    requires
        2 <= from <= parts.len(),
        no_suffix(parts),
    ensures
        script_spec::suffix_start(parts, from) == parts.len(),
    decreases parts.len() - from,
{
    if from < parts.len() {
        lemma_suffix_start(parts, from + 1);
    }
}

/// A watch is written as its name, its kind and what its kind needs. It then has no
/// gate, no samples and no actions.
pub proof fn law_written_watch(parts: Seq<Seq<char>>)
    requires
        parts.len() >= 3,
        all_plain(parts, ':'),
        parts[0].len() > 0,
        no_suffix(parts),
    ensures
        script_spec::watch_of(fields::joined(parts, ':')) == match script_spec::kind_of(
            parts[1],
            fields::joined(parts.subrange(2, parts.len() as int), ':'),
            parts[0],
        ) {
            Ok(kind) => Ok::<WatchModel, script_spec::ErrorModel>(
                WatchModel {
                    name: parts[0],
                    kind,
                    gate: None,
                    actions: Seq::empty(),
                    samples: Seq::empty(),
                },
            ),
            Err(e) => Err(e),
        },
{
    law_split_undoes_join(parts, ':');
    lemma_suffix_start(parts, 2);
    let none = parts.subrange(parts.len() as int, parts.len() as int);
    assert(none =~= Seq::<Seq<char>>::empty());
    assert(script_spec::suffixes(none) =~= Seq::<Seq<char>>::empty());
}

proof fn lemma_start_with_more(parts: Seq<Seq<char>>, more: Seq<char>, from: int)
    requires
        0 <= from <= parts.len(),
        script_spec::starts_suffix(more),
    ensures
        script_spec::suffix_start(parts.push(more), from) == script_spec::suffix_start(parts, from),
        from <= script_spec::suffix_start(parts, from) <= parts.len(),
    decreases parts.len() - from,
{
    if from < parts.len() {
        assert(parts.push(more)[from] == parts[from]);
        if !script_spec::starts_suffix(parts[from]) {
            lemma_start_with_more(parts, more, from + 1);
        }
    } else {
        assert(parts.push(more)[from] == more);
    }
}

/// One more suffix adds to the watch what the suffix says, and changes nothing else.
proof fn lemma_one_more(parts: Seq<Seq<char>>, more: Seq<char>, w: WatchModel)
    requires
        parts.len() >= 3,
        all_plain(parts, ':'),
        plain(more, ':'),
        script_spec::starts_suffix(more),
        script_spec::watch_of(fields::joined(parts, ':')) == Ok::<
            WatchModel,
            script_spec::ErrorModel,
        >(w),
    ensures
        script_spec::watch_of(fields::joined(parts.push(more), ':'))
            == match script_spec::with_suffix(
            script_spec::SuffixModel { gate: w.gate, samples: w.samples, actions: w.actions },
            more,
        ) {
            Ok(m) => Ok::<WatchModel, script_spec::ErrorModel>(
                WatchModel { gate: m.gate, samples: m.samples, actions: m.actions, ..w },
            ),
            Err(e) => Err(e),
        },
{
    let all = parts.push(more);
    assert(all_plain(all, ':'));
    law_split_undoes_join(parts, ':');
    law_split_undoes_join(all, ':');
    lemma_start_with_more(parts, more, 2);
    let k = script_spec::suffix_start(parts, 2);
    let old_ones = parts.subrange(k, parts.len() as int);
    let new_ones = all.subrange(k, all.len() as int);
    assert(new_ones =~= old_ones.push(more));
    assert(new_ones.drop_last() =~= old_ones);
    assert(new_ones.last() == more);
    let before = script_spec::suffixes(old_ones);
    assert(script_spec::suffixes(new_ones) =~= before.push(more));
    assert(before.push(more).drop_last() =~= before);
    assert(before.push(more).last() == more);
    assert(all.subrange(2, k) =~= parts.subrange(2, k));
    assert(all[0] == parts[0] && all[1] == parts[1]);
    assert(script_spec::suffix_of(before) == Ok::<script_spec::SuffixModel, script_spec::ErrorModel>(
        script_spec::SuffixModel { gate: w.gate, samples: w.samples, actions: w.actions },
    ));
}

proof fn lemma_other_prefix(s: Seq<char>, is: Seq<char>, other: Seq<char>, at: int)
    requires
        text::starts_with(s, is),
        0 <= at < is.len(),
        at < other.len(),
        is[at] != other[at],
    ensures
        !text::starts_with(s, other),
        fields::after_prefix(s, other) is None,
{
    assert(s.subrange(0, is.len() as int)[at] == s[at]);
    if text::starts_with(s, other) {
        assert(s.subrange(0, other.len() as int)[at] == s[at]);
    }
}

proof fn lemma_plain_sum(a: Seq<char>, b: Seq<char>, c: char)
    requires
        plain(a, c),
        plain(b, c),
    ensures
        plain(a + b, c),
{
    assert forall|i: int| 0 <= i < (a + b).len() implies #[trigger] (a + b)[i] != c by {
        if i < a.len() {
            assert((a + b)[i] == a[i]);
        } else {
            assert((a + b)[i] == b[i - a.len()]);
        }
    }
}

/// `gate=` behind a watch names its gate, in place of one that was named before.
pub proof fn law_written_gate(parts: Seq<Seq<char>>, g: Seq<char>, w: WatchModel)
    requires
        parts.len() >= 3,
        all_plain(parts, ':'),
        script_spec::watch_of(fields::joined(parts, ':')) == Ok::<
            WatchModel,
            script_spec::ErrorModel,
        >(w),
        plain(g, ':'),
    ensures
        script_spec::watch_of(fields::joined(parts.push("gate="@ + g), ':')) == Ok::<
            WatchModel,
            script_spec::ErrorModel,
        >(WatchModel { gate: Some(g), ..w }),
{
    reveal_strlit("gate=");
    lemma_after_prefix("gate="@, g);
    lemma_plain_sum("gate="@, g, ':');
    lemma_one_more(parts, "gate="@ + g, w);
}

/// `sample=` behind a watch lists the variables that it samples, in place of those that
/// were listed before.
pub proof fn law_written_samples(parts: Seq<Seq<char>>, vars: Seq<Seq<char>>, w: WatchModel)
    requires
        parts.len() >= 3,
        all_plain(parts, ':'),
        script_spec::watch_of(fields::joined(parts, ':')) == Ok::<
            WatchModel,
            script_spec::ErrorModel,
        >(w),
        vars.len() > 0,
        all_neat(vars),
        all_plain(vars, ':'),
        all_plain(vars, ','),
    ensures
        script_spec::watch_of(
            fields::joined(parts.push("sample="@ + fields::joined(vars, ',')), ':'),
        ) == Ok::<WatchModel, script_spec::ErrorModel>(WatchModel { samples: vars, ..w }),
{
    reveal_strlit("sample=");
    reveal_strlit("gate=");
    let list = fields::joined(vars, ',');
    lemma_after_prefix("sample="@, list);
    lemma_joined_is_plain(vars, ',', ':');
    lemma_plain_sum("sample="@, list, ':');
    lemma_other_prefix("sample="@ + list, "sample="@, "gate="@, 0);
    lemma_cond_tokens(vars);
    lemma_one_more(parts, "sample="@ + list, w);
}

proof fn lemma_nonempty_all(parts: Seq<Seq<char>>)
    requires
        forall|i: int| 0 <= i < parts.len() ==> #[trigger] parts[i].len() > 0,
    ensures
        fields::nonempty(parts) == parts,
    decreases parts.len(),
{
    if parts.len() > 0 {
        let less = parts.drop_last();
        assert forall|i: int| 0 <= i < less.len() implies #[trigger] less[i].len() > 0 by {
            assert(less[i] == parts[i]);
        }
        lemma_nonempty_all(less);
        assert(parts[parts.len() - 1].len() > 0);
        assert(less.push(parts.last()) =~= parts);
    } else {
        assert(fields::nonempty(parts) =~= parts);
    }
}

proof fn lemma_actions(toks: Seq<Seq<char>>, list: Seq<ActionModel>)
    requires
        list.len() == toks.len(),
        forall|i: int|
            0 <= i < toks.len() ==> script_spec::action_of(#[trigger] toks[i]) == Ok::<
                ActionModel,
                script_spec::ErrorModel,
            >(list[i]),
    ensures
        script_spec::actions_of(toks) == Ok::<Seq<ActionModel>, script_spec::ErrorModel>(list),
    decreases toks.len(),
{
    if toks.len() > 0 {
        let less = toks.drop_last();
        assert forall|i: int| 0 <= i < less.len() implies script_spec::action_of(
            #[trigger] less[i],
        ) == Ok::<ActionModel, script_spec::ErrorModel>(list.drop_last()[i]) by {
            assert(less[i] == toks[i]);
        }
        lemma_actions(less, list.drop_last());
        assert(toks[toks.len() - 1] == toks.last());
        assert(list.drop_last().push(list.last()) =~= list);
    } else {
        assert(list =~= Seq::<ActionModel>::empty());
    }
}

/// `then=` behind a watch lists actions, in their order, behind those that were listed
/// before.
pub proof fn law_written_actions(
    parts: Seq<Seq<char>>,
    toks: Seq<Seq<char>>,
    list: Seq<ActionModel>,
    w: WatchModel,
)
    requires
        parts.len() >= 3,
        all_plain(parts, ':'),
        script_spec::watch_of(fields::joined(parts, ':')) == Ok::<
            WatchModel,
            script_spec::ErrorModel,
        >(w),
        toks.len() > 0,
        list.len() == toks.len(),
        all_plain(toks, ':'),
        all_plain(toks, '+'),
        forall|i: int|
            0 <= i < toks.len() ==> #[trigger] toks[i].len() > 0 && script_spec::action_of(toks[i])
                == Ok::<ActionModel, script_spec::ErrorModel>(list[i]),
    ensures
        script_spec::watch_of(
            fields::joined(parts.push("then="@ + fields::joined(toks, '+')), ':'),
        ) == Ok::<WatchModel, script_spec::ErrorModel>(
            WatchModel { actions: w.actions + list, ..w },
        ),
{
    reveal_strlit("then=");
    reveal_strlit("sample=");
    reveal_strlit("gate=");
    let rest = fields::joined(toks, '+');
    lemma_after_prefix("then="@, rest);
    lemma_joined_is_plain(toks, '+', ':');
    lemma_plain_sum("then="@, rest, ':');
    lemma_other_prefix("then="@ + rest, "then="@, "gate="@, 0);
    lemma_other_prefix("then="@ + rest, "then="@, "sample="@, 0);
    law_split_undoes_join(toks, '+');
    lemma_nonempty_all(toks);
    lemma_actions(toks, list);
    lemma_one_more(parts, "then="@ + rest, w);
}

// ---------------------------------------------------------------------------
// Actions
// ---------------------------------------------------------------------------

proof fn lemma_action_words()
    ensures
        "setvar="@.len() == 7 && "setvar="@[0] == 's' && "setvar="@[6] == '=',
        "setvar_pulse="@.len() == 13 && "setvar_pulse="@[0] == 's' && "setvar_pulse="@[6] == '_',
        "pseudo_pulse="@.len() == 13 && "pseudo_pulse="@[0] == 'p',
        "dump="@.len() == 5 && "dump="@[0] == 'd',
        "snapshot="@.len() == 9 && "snapshot="@[0] == 's' && "snapshot="@[1] == 'n',
        "setvar="@[1] == 'e' && "setvar_pulse="@[1] == 'e',
        "emit"@.len() == 4 && "emit"@[0] == 'e',
        "halt"@.len() == 4 && "halt"@[0] == 'h',
        "snapshot"@.len() == 8 && "snapshot"@[0] == 's' && "snapshot"@[1] == 'n',
        neat("emit"@) && neat("halt"@) && neat("snapshot"@),
        "emit"@ != "halt"@ && "emit"@ != "snapshot"@ && "halt"@ != "snapshot"@,
{
    reveal_strlit("setvar=");
    reveal_strlit("setvar_pulse=");
    reveal_strlit("pseudo_pulse=");
    reveal_strlit("dump=");
    reveal_strlit("snapshot=");
    reveal_strlit("emit");
    reveal_strlit("halt");
    reveal_strlit("snapshot");
    assert("emit"@[0] != "halt"@[0]);
    assert("emit"@.len() != "snapshot"@.len());
    assert("halt"@.len() != "snapshot"@.len());
}

/// The words `emit` and `halt` are actions; so is `snapshot`, whose path may follow
/// `=`.
pub proof fn law_written_plain_actions(path: Seq<char>)
    requires
        neat(path),
    ensures
        script_spec::action_of("emit"@) == Ok::<ActionModel, script_spec::ErrorModel>(
            ActionModel::Emit,
        ),
        script_spec::action_of("halt"@) == Ok::<ActionModel, script_spec::ErrorModel>(
            ActionModel::Halt,
        ),
        script_spec::action_of("snapshot"@) == Ok::<ActionModel, script_spec::ErrorModel>(
            ActionModel::Snapshot { path: "snapshot_{tick}.bin"@ },
        ),
        script_spec::action_of("snapshot="@ + path) == Ok::<ActionModel, script_spec::ErrorModel>(
            ActionModel::Snapshot { path },
        ),
{
    lemma_action_words();
    let word = "snapshot"@;
    assert(word.subrange(0, 8) =~= word);
    assert(text::starts_with(word, word));
    lemma_other_prefix(word, word, "setvar="@, 1);
    lemma_other_prefix(word, word, "setvar_pulse="@, 1);
    lemma_other_prefix(word, word, "pseudo_pulse="@, 0);
    lemma_other_prefix(word, word, "dump="@, 0);
    let tok = "snapshot="@ + path;
    lemma_neat_field("snapshot="@, path);
    lemma_after_prefix("snapshot="@, path);
    lemma_other_prefix(tok, "snapshot="@, "setvar="@, 1);
    lemma_other_prefix(tok, "snapshot="@, "setvar_pulse="@, 1);
    lemma_other_prefix(tok, "snapshot="@, "pseudo_pulse="@, 0);
    lemma_other_prefix(tok, "snapshot="@, "dump="@, 0);
}

proof fn lemma_joined_ends_neat(parts: Seq<Seq<char>>, sep: char)
    requires
        parts.len() > 1,
        neat(parts.last()),
    ensures
        fields::joined(parts, sep).len() > 0,
        !fields::is_space(fields::joined(parts, sep).last()),
{
    let before = fields::joined(parts.drop_last(), sep).push(sep);
    assert((before + parts.last()).last() == parts.last().last());
}

proof fn lemma_keyed_action(word: Seq<char>, parts: Seq<Seq<char>>)
    requires
        word.len() > 0,
        !fields::is_space(word[0]),
        parts.len() > 1,
        all_plain(parts, ','),
        neat(parts.last()),
    ensures
        fields::trimmed(word + fields::joined(parts, ',')) == word + fields::joined(parts, ','),
        text::starts_with(word + fields::joined(parts, ','), word),
        text::dropped(word + fields::joined(parts, ','), word.len() as int) == fields::joined(
            parts,
            ',',
        ),
        fields::fields(fields::joined(parts, ','), ',') == parts,
        (word + fields::joined(parts, ',')).len() >= word.len(),
{
    let rest = fields::joined(parts, ',');
    lemma_joined_ends_neat(parts, ',');
    lemma_after_prefix(word, rest);
    law_split_undoes_join(parts, ',');
    assert((word + rest)[0] == word[0]);
    assert((word + rest).last() == rest.last());
}

/// `setvar=NAME,VALUE` sets the variable to the value.
pub proof fn law_written_setvar(name: Seq<char>, t: Seq<char>, v: i64)
    requires
        plain(name, ','),
        plain(t, ','),
        neat(t),
        fields::number(t) == Some(v),
    ensures
        script_spec::action_of("setvar="@ + fields::joined(seq![name, t], ',')) == Ok::<ActionModel, script_spec::ErrorModel>(
            ActionModel::SetVar { name, value: v as i32 },
        ),
{
    lemma_action_words();
    let parts = seq![name, t];
    assert(all_plain(parts, ','));
    lemma_keyed_action("setvar="@, parts);
    assert(parts.len() == 2 && parts[0] == name && parts[1] == t);
}

/// `setvar_pulse=NAME,VALUE,HOLD_TICKS` holds the variable at the value for so many
/// ticks. A pulse of no ticks is refused.
pub proof fn law_written_setvar_pulse(
    name: Seq<char>,
    t: Seq<char>,
    u: Seq<char>,
    v: i64,
    hold: i64,
)
    requires
        plain(name, ','),
        plain(t, ','),
        plain(u, ','),
        neat(u),
        fields::number(t) == Some(v),
        fields::number(u) == Some(hold),
    ensures
        hold as u32 != 0 ==> script_spec::action_of(
            "setvar_pulse="@ + fields::joined(seq![name, t, u], ','),
        ) == Ok::<ActionModel, script_spec::ErrorModel>(
            ActionModel::SetVarPulse { name, value: v as i32, hold: hold as u32 },
        ),
        hold as u32 == 0 ==> script_spec::action_of(
            "setvar_pulse="@ + fields::joined(seq![name, t, u], ','),
        ) is Err,
{
    lemma_action_words();
    let parts = seq![name, t, u];
    assert(all_plain(parts, ','));
    lemma_keyed_action("setvar_pulse="@, parts);
    let tok = "setvar_pulse="@ + fields::joined(parts, ',');
    lemma_other_prefix(tok, "setvar_pulse="@, "setvar="@, 6);
    assert(parts.len() == 3 && parts[0] == name && parts[1] == t && parts[2] == u);
}

/// `pseudo_pulse=PSEUDO,SELECTOR,HOLD_TICKS` raises the pseudo-class on the selector
/// for so many ticks. A pulse of no ticks is refused.
pub proof fn law_written_pseudo_pulse(
    pseudo: Seq<char>,
    selector: Seq<char>,
    u: Seq<char>,
    hold: i64,
)
    requires
        plain(pseudo, ','),
        plain(selector, ','),
        plain(u, ','),
        neat(u),
        fields::number(u) == Some(hold),
    ensures
        hold as u32 != 0 ==> script_spec::action_of(
            "pseudo_pulse="@ + fields::joined(seq![pseudo, selector, u], ','),
        ) == Ok::<ActionModel, script_spec::ErrorModel>(
            ActionModel::PseudoPulse { pseudo, selector, hold: hold as u32 },
        ),
        hold as u32 == 0 ==> script_spec::action_of(
            "pseudo_pulse="@ + fields::joined(seq![pseudo, selector, u], ','),
        ) is Err,
{
    lemma_action_words();
    let parts = seq![pseudo, selector, u];
    assert(all_plain(parts, ','));
    lemma_keyed_action("pseudo_pulse="@, parts);
    let tok = "pseudo_pulse="@ + fields::joined(parts, ',');
    lemma_other_prefix(tok, "pseudo_pulse="@, "setvar="@, 0);
    lemma_other_prefix(tok, "pseudo_pulse="@, "setvar_pulse="@, 0);
    assert(parts.len() == 3 && parts[0] == pseudo && parts[1] == selector && parts[2] == u);
}

/// `dump=ADDR,LEN` dumps so many bytes from the address on, to a path that may follow
/// behind one more comma.
pub proof fn law_written_dump(t: Seq<char>, u: Seq<char>, path: Seq<char>, addr: i64, len: i64)
    requires
        plain(t, ','),
        plain(u, ','),
        plain(path, ','),
        neat(u),
        neat(path),
        fields::number(t) == Some(addr),
        fields::number(u) == Some(len),
    ensures
        script_spec::action_of("dump="@ + fields::joined(seq![t, u], ',')) == Ok::<ActionModel, script_spec::ErrorModel>(
            ActionModel::Dump { addr: addr as i32, len: len as u32, path: "dump_{tick}.bin"@ },
        ),
        script_spec::action_of("dump="@ + fields::joined(seq![t, u, path], ',')) == Ok::<ActionModel, script_spec::ErrorModel>(
            ActionModel::Dump { addr: addr as i32, len: len as u32, path },
        ),
{
    lemma_action_words();
    let two = seq![t, u];
    let three = seq![t, u, path];
    assert(all_plain(two, ','));
    assert(all_plain(three, ','));
    lemma_keyed_action("dump="@, two);
    lemma_keyed_action("dump="@, three);
    let short = "dump="@ + fields::joined(two, ',');
    let long = "dump="@ + fields::joined(three, ',');
    lemma_other_prefix(short, "dump="@, "setvar="@, 0);
    lemma_other_prefix(short, "dump="@, "setvar_pulse="@, 0);
    lemma_other_prefix(short, "dump="@, "pseudo_pulse="@, 0);
    lemma_other_prefix(long, "dump="@, "setvar="@, 0);
    lemma_other_prefix(long, "dump="@, "setvar_pulse="@, 0);
    lemma_other_prefix(long, "dump="@, "pseudo_pulse="@, 0);
    assert(two.len() == 2 && two[0] == t && two[1] == u);
    assert(three.len() == 3 && three[0] == t && three[1] == u && three[2] == path);
    assert(three.subrange(2, 3) =~= seq![path]);
}

} // verus!
