//! What the bodies of a recognised loop compute, and that the loop's descriptor
//! says so.

use crate::number;
use crate::pattern::loop_descriptor::charge;
use crate::pattern::loop_descriptor::family::{FamilyModel, MemberModel};
use crate::pattern::loop_descriptor::opcode;
use crate::pattern::loop_descriptor::runtime;
use crate::pattern::loop_descriptor::shapes;
use crate::pattern::loop_descriptor::{CounterModel, PointerModel};
use crate::program::ProgramModel;
use crate::state::StateModel;
use crate::types::{AssignmentModel, BranchModel, CalcKind, ExprModel, TestModel};
use vstd::arithmetic::power2::*;
use vstd::prelude::*;

verus! {

// ---------------------------------------------------------------------------
// Values
// ---------------------------------------------------------------------------

/// What variables hold, and what functions return.
pub struct Reading {
    pub vars: spec_fn(Seq<char>) -> int,
    pub calls: spec_fn(Seq<char>, Seq<int>) -> int,
}

/// What a math function makes of whole numbers, as far as it is told here.
pub open spec fn calculated(kind: CalcKind, xs: Seq<int>) -> Option<int> {
    match kind {
        CalcKind::Add => if xs.len() == 2 {
            Some(xs[0] + xs[1])
        } else {
            None
        },
        CalcKind::Sub => if xs.len() == 2 {
            Some(xs[0] - xs[1])
        } else {
            None
        },
        CalcKind::Mul => if xs.len() == 2 {
            Some(xs[0] * xs[1])
        } else {
            None
        },
        CalcKind::Max => if xs.len() == 2 {
            Some(
                if xs[0] >= xs[1] {
                    xs[0]
                } else {
                    xs[1]
                },
            )
        } else {
            None
        },
        CalcKind::Negate => if xs.len() == 1 {
            Some(-xs[0])
        } else {
            None
        },
        _ => None,
    }
}

/// The value of an expression in whole numbers, if all it needs has one.
pub open spec fn value(e: ExprModel, r: Reading) -> Option<int>
    decreases e,
{
    match e {
        ExprModel::Number(bits) => number::whole_value(bits),
        ExprModel::Text(_) => None,
        ExprModel::Var(name, _) => Some((r.vars)(name)),
        ExprModel::Calc(kind, parts) => match values(parts, r) {
            Some(xs) => calculated(kind, xs),
            None => None,
        },
        ExprModel::Cond(branches, fallback) => match taken(branches, r) {
            Some(x) => x,
            None => value(*fallback, r),
        },
        ExprModel::Call(name, args) => match values(args, r) {
            Some(xs) => Some((r.calls)(name, xs)),
            None => None,
        },
        ExprModel::Concat(_) => None,
    }
}

/// The values of a list of expressions, if all have one.
pub open spec fn values(v: Seq<ExprModel>, r: Reading) -> Option<Seq<int>>
    decreases v,
{
    if v.len() == 0 {
        Some(Seq::empty())
    } else {
        match (values(v.subrange(0, v.len() - 1), r), value(v[v.len() - 1], r)) {
            (Some(xs), Some(x)) => Some(xs.push(x)),
            _ => None,
        }
    }
}

/// The value of the first branch whose condition is met, if there is one.
pub open spec fn taken(v: Seq<BranchModel>, r: Reading) -> Option<Option<int>>
    decreases v,
{
    if v.len() == 0 {
        None
    } else {
        match taken(v.subrange(0, v.len() - 1), r) {
            Some(x) => Some(x),
            None => if met(v[v.len() - 1].condition, r) {
                Some(value(v[v.len() - 1].body, r))
            } else {
                None
            },
        }
    }
}

/// Is a condition met? A test is met while its property holds the value.
pub open spec fn met(t: TestModel, r: Reading) -> bool
    decreases t,
{
    match t {
        TestModel::Single(property, x) => value(*x, r) == Some((r.vars)(property)),
        TestModel::And(parts) => all_met(parts, r),
        TestModel::Or(parts) => some_met(parts, r),
    }
}

/// Are all conditions met?
pub open spec fn all_met(v: Seq<TestModel>, r: Reading) -> bool
    decreases v,
{
    if v.len() == 0 {
        true
    } else {
        all_met(v.subrange(0, v.len() - 1), r) && met(v[v.len() - 1], r)
    }
}

/// Is one of the conditions met?
pub open spec fn some_met(v: Seq<TestModel>, r: Reading) -> bool
    decreases v,
{
    if v.len() == 0 {
        false
    } else {
        some_met(v.subrange(0, v.len() - 1), r) || met(v[v.len() - 1], r)
    }
}

// ---------------------------------------------------------------------------
// Values of shapes
// ---------------------------------------------------------------------------

proof fn lemma_values_of_two(v: Seq<ExprModel>, r: Reading)
    requires
        v.len() == 2,
    ensures
        values(v, r) == match (value(v[0], r), value(v[1], r)) {
            (Some(a), Some(b)) => Some(seq![a, b]),
            _ => None,
        },
{
    let one = v.subrange(0, 1);
    assert(one.subrange(0, 0) =~= Seq::empty());
    assert(one[0] == v[0]);
    assert(values(one.subrange(0, 0), r) == Some(Seq::<int>::empty()));
    assert(values(one, r) == match value(v[0], r) {
        Some(a) => Some(seq![a]),
        None => None,
    }) by {
        if let Some(a) = value(v[0], r) {
            assert(Seq::<int>::empty().push(a) =~= seq![a]);
        }
    }
    if let (Some(a), Some(b)) = (value(v[0], r), value(v[1], r)) {
        assert(seq![a].push(b) =~= seq![a, b]);
    }
}

/// The value of a math function with two operands.
pub proof fn lemma_binary(e: ExprModel, kind: CalcKind, r: Reading)
    requires
        e.binary(kind) is Some,
        kind == CalcKind::Add || kind == CalcKind::Sub || kind == CalcKind::Mul || kind
            == CalcKind::Max,
    ensures
        ({
            let (a, b) = e.binary(kind)->0;
            value(e, r) == match (value(a, r), value(b, r)) {
                (Some(x), Some(y)) => calculated(kind, seq![x, y]),
                _ => None,
            }
        }),
{
    if let ExprModel::Calc(_, parts) = e {
        lemma_values_of_two(parts, r);
    }
}

/// The value of a negation.
pub proof fn lemma_negated(e: ExprModel, r: Reading)
    requires
        e.negated() is Some,
    ensures
        value(e, r) == match value(e.negated()->0, r) {
            Some(x) => Some(-x),
            None => None,
        },
{
    if let ExprModel::Calc(_, parts) = e {
        assert(parts.subrange(0, 0) =~= Seq::empty());
        assert(values(parts.subrange(0, 0), r) == Some(Seq::<int>::empty()));
        assert(values(parts, r) == match value(parts[0], r) {
            Some(x) => Some(Seq::empty().push(x)),
            None => None,
        });
    }
}

/// The value of a call with two arguments.
proof fn lemma_call(e: ExprModel, r: Reading)
    requires
        shapes::call_of_two(e) is Some,
    ensures
        e is Call,
        ({
            let (a, b) = shapes::call_of_two(e)->0;
            value(e, r) == match (value(a, r), value(b, r)) {
                (Some(x), Some(y)) => Some((r.calls)(e->Call_0, seq![x, y])),
                _ => None,
            }
        }),
{
    if let ExprModel::Call(_, args) = e {
        lemma_values_of_two(args, r);
    }
}

/// The value of a conditional with one branch.
proof fn lemma_one_branch(branches: Seq<BranchModel>, fallback: ExprModel, r: Reading)
    requires
        branches.len() == 1,
    ensures
        value(ExprModel::Cond(branches, Box::new(fallback)), r) == if met(
            branches[0].condition,
            r,
        ) {
            value(branches[0].body, r)
        } else {
            value(fallback, r)
        },
{
    assert(branches.subrange(0, 0) =~= Seq::empty());
    assert(taken(branches.subrange(0, 0), r) is None);
    assert(taken(branches, r) == if met(branches[0].condition, r) {
        Some(value(branches[0].body, r))
    } else {
        None
    });
}

/// The value of a conditional whose branches all have the same body.
proof fn lemma_same_branches(branches: Seq<BranchModel>, body: ExprModel, r: Reading)
    requires
        forall|i: int| 0 <= i < branches.len() ==> (#[trigger] branches[i]).body == body,
    ensures
        taken(branches, r) == if some_met(shapes::conditions(branches), r) {
            Some(value(body, r))
        } else {
            None
        },
    decreases branches.len(),
{
    let tests = shapes::conditions(branches);
    if branches.len() > 0 {
        let n = branches.len() - 1;
        let rest = branches.subrange(0, n);
        assert forall|i: int| 0 <= i < rest.len() implies (#[trigger] rest[i]).body == body by {
            assert(branches[i].body == body);
        }
        lemma_same_branches(rest, body, r);
        assert(shapes::conditions(rest) =~= tests.subrange(0, n));
        assert(branches[n].body == body);
        assert(tests[n] == branches[n].condition);
    }
}

// ---------------------------------------------------------------------------
// Literals
// ---------------------------------------------------------------------------

/// A literal that was found to be twice a positive whole one is so, if it is a whole
/// number.
proof fn lemma_twice(double: u64, base: u64)
    requires
        number::is_twice(double, base),
        number::whole_value(base) matches Some(n) && n > 0,
        number::whole_value(double) is Some,
    ensures
        number::whole_value(double)->0 == 2 * number::whole_value(base)->0,
{
    let step = 0x0010_0000_0000_0000int;
    let e = number::exponent_field(base);
    assert(!number::is_negative(base)) by {
        if number::is_negative(base) {
            lemma_magnitude(base);
        }
    }
    lemma_pow2_52();
    if base == number::ONE_BITS && double == number::BELOW_TWO_BITS {
        assert(number::exponent_field(double) == 1023);
        assert(number::fraction_field(double) == 0x000f_ffff_ffff_ffff);
        assert(number::scale(double) == -52);
        assert(number::significand(double) == 0x001f_ffff_ffff_ffff);
        assert(pow2((-number::scale(double)) as nat) == 0x0010_0000_0000_0000);
        assert(0x001f_ffff_ffff_ffffint % 0x0010_0000_0000_0000int == 0x000f_ffff_ffff_ffffint);
        assert(false);
    } else {
        assert(double == base + number::EXPONENT_STEP);
        assert(e < 2046);
        let q = base as int / step;
        assert(0 <= q < 2048);
        assert(q == e);
        assert(double as int / step == q + 1);
        assert(number::exponent_field(double) == e + 1);
        assert(number::fraction_field(double) == number::fraction_field(base));
        assert(!number::is_negative(double));
        lemma_scaled(base, double);
    }
}

proof fn lemma_pow2_52()
    ensures
        pow2(52) == 0x0010_0000_0000_0000,
{
    lemma2_to64();
    lemma_pow2_adds(26, 26);
    assert(0x400_0000int * 0x400_0000int == 0x0010_0000_0000_0000int) by (nonlinear_arith);
}

proof fn lemma_magnitude(bits: u64)
    ensures
        number::whole_magnitude(bits) >= 0,
{
    let s = number::significand(bits);
    if number::scale(bits) >= 0 {
        lemma_pow2_pos(number::scale(bits) as nat);
        assert(s * pow2(number::scale(bits) as nat) >= 0) by (nonlinear_arith)
            requires
                s >= 0,
                pow2(number::scale(bits) as nat) > 0,
        ;
    } else {
        lemma_pow2_pos((-number::scale(bits)) as nat);
        vstd::arithmetic::div_mod::lemma_div_pos_is_pos(
            s,
            pow2((-number::scale(bits)) as nat) as int,
        );
    }
}

/// One more in the exponent doubles a whole number.
proof fn lemma_scaled(base: u64, double: u64)
    requires
        number::whole_value(base) matches Some(n) && n > 0,
        number::whole_value(double) is Some,
        !number::is_negative(base),
        !number::is_negative(double),
        number::exponent_field(double) == number::exponent_field(base) + 1,
        number::fraction_field(double) == number::fraction_field(base),
    ensures
        number::whole_value(double)->0 == 2 * number::whole_value(base)->0,
{
    let s = number::significand(base);
    let e = number::scale(base);
    if number::exponent_field(base) == 0 {
        // A value this small is below 1.
        let p = pow2(1074) as int;
        lemma_pow2_52();
        lemma_pow2_strictly_increases(52, 1074);
        assert(e == -1074);
        assert(0 <= s < p);
        vstd::arithmetic::div_mod::lemma_basic_div(s, p);
        assert(false);
    }
    assert(number::significand(double) == s);
    assert(number::scale(double) == e + 1);
    if e >= 0 {
        lemma_pow2_unfold((e + 1) as nat);
        assert(s * (2 * pow2(e as nat)) == 2 * (s * pow2(e as nat))) by (nonlinear_arith);
    } else {
        let p = pow2((-e) as nat) as int;
        lemma_pow2_unfold((-e) as nat);
        lemma_pow2_pos((-e) as nat);
        let half = pow2((-e - 1) as nat) as int;
        assert(p == 2 * half);
        lemma_pow2_pos((-e - 1) as nat);
        vstd::arithmetic::div_mod::lemma_fundamental_div_mod(s, p);
        let n = s / p;
        assert(s == p * n);
        assert(s == half * (2 * n)) by (nonlinear_arith)
            requires
                s == p * n,
                p == 2 * half,
        ;
        vstd::arithmetic::div_mod::lemma_div_multiples_vanish(2 * n, half);
        assert(half * (2 * n) / half == 2 * n);
        if e + 1 == 0 {
            lemma2_to64();
            assert(half == 1);
            assert(s * pow2(0) == s) by (nonlinear_arith)
                requires
                    pow2(0) == 1,
            ;
        }
    }
}

/// Is a whole literal within 32 bits what it is converted to?
proof fn lemma_as_i32(bits: u64)
    requires
        number::whole_value(bits) is Some,
        i32::MIN < number::as_i32(bits) < i32::MAX,
    ensures
        number::as_i32(bits) == number::whole_value(bits)->0,
{
}

// ---------------------------------------------------------------------------
// Pointers
// ---------------------------------------------------------------------------

/// Bit `n` of a word.
pub open spec fn bit_of(w: int, n: int) -> int {
    (w / pow2(n as nat) as int) % 2
}

/// Does a body do nothing but leave its prior value, or step it: while its test is
/// met (or while it is not, if `steps` is false) it is
/// `ring(prior + step - bits(flag, bit) * 2 * step, m)`, and otherwise the prior value?
pub open spec fn steps_by(
    body: ExprModel,
    p: PointerModel,
    steps: bool,
    ring: Seq<char>,
    bits: Seq<char>,
    m: int,
) -> bool {
    &&& m >= 2
    &&& body matches ExprModel::Cond(branches, _)
    &&& branches.len() == 1
    &&& forall|r: Reading| (#[trigger] value(body, r)) matches Some(x) ==> if met(
        branches[0].condition,
        r,
    ) == steps {
        x == (r.calls)(
            ring,
            seq![
                (r.vars)(p.prior) + p.step - (r.calls)(bits, seq![(r.vars)(p.flag), p.bit as int]) * (
                2 * p.step),
                m,
            ],
        )
    } else {
        x == (r.vars)(p.prior)
    }
}

/// Does a body step as a pointer says, with some functions for the ring and the bit?
pub open spec fn is_pointer(body: ExprModel, p: PointerModel) -> bool {
    exists|steps: bool, ring: Seq<char>, bits: Seq<char>, m: int| #[trigger]
        steps_by(body, p, steps, ring, bits, m)
}

/// The function that a step calls.
spec fn bit_function(e: ExprModel) -> Seq<char> {
    let product = (e.binary(CalcKind::Sub)->0).1;
    (product.binary(CalcKind::Mul)->0).0->Call_0
}

proof fn lemma_stepped(e: ExprModel, r: Reading)
    requires
        shapes::stepped(e) matches Some((_, step, _, _)) && step < i32::MAX,
    ensures
        ({
            let (prior, step, flag, bit) = shapes::stepped(e)->0;
            value(e, r) matches Some(x) ==> x == (r.vars)(prior) + step - (r.calls)(
                bit_function(e),
                seq![(r.vars)(flag), bit as int],
            ) * (2 * step)
        }),
{
    lemma_binary(e, CalcKind::Sub, r);
    let (sum, product) = e.binary(CalcKind::Sub)->0;
    lemma_binary(sum, CalcKind::Add, r);
    lemma_binary(product, CalcKind::Mul, r);
    let (call, _) = product.binary(CalcKind::Mul)->0;
    lemma_call(call, r);
    let k = (sum.binary(CalcKind::Add)->0).1->Number_0;
    let double = (product.binary(CalcKind::Mul)->0).1->Number_0;
    if number::whole_value(double) is Some {
        lemma_twice(double, k);
        lemma_as_i32(k);
    }
}

proof fn lemma_pointer(body: ExprModel, property: Seq<char>)
    requires
        shapes::pointer_shape(body, property) matches Some(p) && p.step < i32::MAX,
    ensures
        is_pointer(body, shapes::pointer_shape(body, property)->0),
        (shapes::pointer_shape(body, property)->0).property == property,
{
    let p = shapes::pointer_shape(body, property)->0;
    if let ExprModel::Cond(branches, fallback) = body {
        let (a, b) = (branches[0].body, *fallback);
        let steps = shapes::pointer_oriented(a, b, property) is None;
        let update = if steps {
            a
        } else {
            b
        };
        let (inner, modulus) = shapes::call_of_two(update)->0;
        let ring = update->Call_0;
        let bits = bit_function(inner);
        let m = shapes::whole_literal(modulus)->0;
        assert forall|r: Reading| (#[trigger] value(body, r)) matches Some(x) implies if met(
            branches[0].condition,
            r,
        ) == steps {
            value(body, r)->0 == (r.calls)(
                ring,
                seq![
                    (r.vars)(p.prior) + p.step - (r.calls)(
                        bits,
                        seq![(r.vars)(p.flag), p.bit as int],
                    ) * (2 * p.step),
                    m,
                ],
            )
        } else {
            value(body, r)->0 == (r.vars)(p.prior)
        } by {
            lemma_one_branch(branches, *fallback, r);
            lemma_call(update, r);
            lemma_stepped(inner, r);
        }
        assert(steps_by(body, p, steps, ring, bits, m));
    }
}

proof fn lemma_pointers_in(members: Seq<MemberModel>, k: i64, ip: Seq<char>, i: int)
    requires
        0 <= i < opcode::pointers_in(members, k, ip).len(),
    ensures
        exists|j: int|
            0 <= j < members.len() && (#[trigger] members[j]).property != ip
                && members[j].bodies.contains_key(k) && shapes::pointer_shape(
                members[j].bodies[k],
                members[j].property,
            ) == Some(opcode::pointers_in(members, k, ip)[i]),
    decreases members.len(),
{
    let rest = members.drop_last();
    let old = opcode::pointers_in(rest, k, ip);
    let n = rest.len() as int;
    if i < old.len() {
        lemma_pointers_in(rest, k, ip, i);
        let j = choose|j: int|
            0 <= j < rest.len() && (#[trigger] rest[j]).property != ip
                && rest[j].bodies.contains_key(k) && shapes::pointer_shape(
                rest[j].bodies[k],
                rest[j].property,
            ) == Some(old[i]);
        assert(members[j] == rest[j]);
        assert(opcode::pointers_in(members, k, ip)[i] == old[i]);
    } else {
        assert(members[n] == members.last());
    }
}

/// The body of a member for `k`, other than that of the register that stays or
/// advances.
pub open spec fn has_other_body(
    f: FamilyModel,
    k: i64,
    ip: Seq<char>,
    j: int,
    property: Seq<char>,
    body: ExprModel,
) -> bool {
    0 <= j < f.members.len() && f.members[j].property == property && property != ip
        && f.members[j].bodies.contains_key(k) && f.members[j].bodies[k] == body
}

/// A recognised pointer moves as its own body says: whatever variables hold and
/// functions return, the body leaves the prior value of the pointer or takes it
/// through a ring after adding the step, less twice the step times the pointer's bit
/// of its flag word.
pub proof fn law_pointer_moves_as_its_body(f: FamilyModel, k: i64, v: Seq<AssignmentModel>, i: int)
    requires
        opcode::loop_for(f, k, v) is Some,
        0 <= i < (opcode::loop_for(f, k, v)->0).pointers.len(),
        (opcode::loop_for(f, k, v)->0).pointers[i].step < i32::MAX,
    ensures
        ({
            let d = opcode::loop_for(f, k, v)->0;
            exists|j: int, body: ExprModel| #[trigger]
                has_other_body(f, k, d.ip, j, d.pointers[i].property, body) && is_pointer(
                    body,
                    d.pointers[i],
                )
        }),
{
    reveal(opcode::loop_for);
    let d = opcode::loop_for(f, k, v)->0;
    lemma_pointers_in(f.members, k, d.ip, i);
    let j = choose|j: int|
        0 <= j < f.members.len() && (#[trigger] f.members[j]).property != d.ip
            && f.members[j].bodies.contains_key(k) && shapes::pointer_shape(
            f.members[j].bodies[k],
            f.members[j].property,
        ) == Some(d.pointers[i]);
    let body = f.members[j].bodies[k];
    lemma_pointer(body, f.members[j].property);
    assert(has_other_body(f, k, d.ip, j, d.pointers[i].property, body));
}

/// Does a function return bits of words?
pub open spec fn reads_bits(r: Reading, bits: Seq<char>) -> bool {
    forall|args: Seq<int>|
        args.len() == 2 && 0 <= args[1] < 32 ==> #[trigger] (r.calls)(bits, args) == bit_of(
            args[0],
            args[1],
        )
}

/// Does a body, where it steps, hand the ring the prior value plus the step while the
/// pointer's bit of the flag word is clear, and less the step while it is set?
pub open spec fn follows_bit(
    body: ExprModel,
    p: PointerModel,
    steps: bool,
    ring: Seq<char>,
    bits: Seq<char>,
    m: int,
) -> bool {
    &&& body matches ExprModel::Cond(branches, _)
    &&& branches.len() == 1
    &&& forall|r: Reading|
        reads_bits(r, bits) && met(branches[0].condition, r) == steps ==> ((#[trigger] value(
            body,
            r,
        )) matches Some(x) ==> x == (r.calls)(
            ring,
            seq![
                (r.vars)(p.prior) + (if bit_of((r.vars)(p.flag), p.bit as int) == 0 {
                    p.step as int
                } else {
                    -p.step
                }),
                m,
            ],
        ))
}

/// A recognised pointer moves up by its step while its bit of its flag word is clear,
/// and down by its step while it is set: whatever the word holds, that is what its
/// own body comes to where the body's function returns bits of words.
pub proof fn law_pointer_follows_its_bit(f: FamilyModel, k: i64, v: Seq<AssignmentModel>, i: int)
    requires
        opcode::loop_for(f, k, v) is Some,
        0 <= i < (opcode::loop_for(f, k, v)->0).pointers.len(),
        (opcode::loop_for(f, k, v)->0).pointers[i].step < i32::MAX,
        (opcode::loop_for(f, k, v)->0).pointers[i].bit < 32,
    ensures
        ({
            let d = opcode::loop_for(f, k, v)->0;
            exists|
                j: int,
                body: ExprModel,
                steps: bool,
                ring: Seq<char>,
                bits: Seq<char>,
                m: int,
            |
                has_other_body(f, k, d.ip, j, d.pointers[i].property, body) && #[trigger]
                    follows_bit(body, d.pointers[i], steps, ring, bits, m) && #[trigger]
                    has_other_body(f, k, d.ip, j, d.pointers[i].property, body)
        }),
{
    law_pointer_moves_as_its_body(f, k, v, i);
    let d = opcode::loop_for(f, k, v)->0;
    let p = d.pointers[i];
    let (j, body) = choose|j: int, body: ExprModel| #[trigger]
        has_other_body(f, k, d.ip, j, p.property, body) && is_pointer(body, p);
    let (steps, ring, bits, m) = choose|steps: bool, ring: Seq<char>, bits: Seq<char>, m: int|
        #[trigger]
        steps_by(body, p, steps, ring, bits, m);
    let branches = body->Cond_0;
    assert forall|r: Reading|
        reads_bits(r, bits) && met(branches[0].condition, r) == steps && (#[trigger] value(
            body,
            r,
        )) is Some implies value(body, r)->0 == (r.calls)(
        ring,
        seq![
            (r.vars)(p.prior) + (if bit_of((r.vars)(p.flag), p.bit as int) == 0 {
                p.step as int
            } else {
                -p.step
            }),
            m,
        ],
    ) by {
        let w = (r.vars)(p.flag);
        let b = bit_of(w, p.bit as int);
        assert((r.calls)(bits, seq![w, p.bit as int]) == b);
        assert(b == 0 || b == 1);
        assert(0 * (2 * p.step) == 0 && 1 * (2 * p.step) == 2 * p.step);
    }
    assert(follows_bit(body, p, steps, ring, bits, m));
}

// ---------------------------------------------------------------------------
// Counters
// ---------------------------------------------------------------------------

/// Does a body leave its prior value while its test is met (or not), and otherwise
/// count it down by the step, not below zero?
pub open spec fn counts_by(body: ExprModel, c: CounterModel, counts: bool) -> bool {
    &&& body matches ExprModel::Cond(branches, _)
    &&& branches.len() == 1
    &&& forall|r: Reading|
        (#[trigger] value(body, r)) == Some(
            if met(branches[0].condition, r) != counts {
                (r.vars)(c.prior)
            } else if (r.vars)(c.prior) >= c.step {
                (r.vars)(c.prior) - c.step
            } else {
                0
            },
        )
}

proof fn lemma_counter(body: ExprModel, property: Seq<char>)
    requires
        shapes::counter_shape(body, property) matches Some(c) && c.step < i32::MAX,
    ensures
        exists|counts: bool| #[trigger]
            counts_by(body, shapes::counter_shape(body, property)->0, counts),
        (shapes::counter_shape(body, property)->0).property == property,
        (shapes::counter_shape(body, property)->0).step > 0,
{
    let c = shapes::counter_shape(body, property)->0;
    if let ExprModel::Cond(branches, fallback) = body {
        let (a, b) = (branches[0].body, *fallback);
        let counts = shapes::counter_oriented(a, b, property) is None;
        let down = if counts {
            a
        } else {
            b
        };
        let (zero, less) = down.binary(CalcKind::Max)->0;
        lemma_as_i32((less.binary(CalcKind::Sub)->0).1->Number_0);
        assert forall|r: Reading| (#[trigger] value(body, r)) == Some(
            if met(branches[0].condition, r) != counts {
                (r.vars)(c.prior)
            } else if (r.vars)(c.prior) >= c.step {
                (r.vars)(c.prior) - c.step
            } else {
                0
            },
        ) by {
            lemma_one_branch(branches, *fallback, r);
            lemma_binary(down, CalcKind::Max, r);
            lemma_binary(less, CalcKind::Sub, r);
        }
        assert(counts_by(body, c, counts));
    }
}

proof fn lemma_counter_in(members: Seq<MemberModel>, k: i64, ip: Seq<char>)
    requires
        opcode::counter_in(members, k, ip) is Some,
    ensures
        exists|j: int|
            0 <= j < members.len() && (#[trigger] members[j]).property != ip
                && members[j].bodies.contains_key(k) && shapes::counter_shape(
                members[j].bodies[k],
                members[j].property,
            ) == opcode::counter_in(members, k, ip),
    decreases members.len(),
{
    let rest = members.drop_last();
    let n = rest.len() as int;
    if opcode::counter_in(rest, k, ip) is Some {
        lemma_counter_in(rest, k, ip);
        let j = choose|j: int|
            0 <= j < rest.len() && (#[trigger] rest[j]).property != ip
                && rest[j].bodies.contains_key(k) && shapes::counter_shape(
                rest[j].bodies[k],
                rest[j].property,
            ) == opcode::counter_in(rest, k, ip);
        assert(members[j] == rest[j]);
    } else {
        assert(members[n] == members.last());
    }
}

/// A recognised counter counts as its own body says: whatever variables hold, the
/// body leaves the prior value or takes the step off it, not going below zero.
pub proof fn law_counter_counts_as_its_body(f: FamilyModel, k: i64, v: Seq<AssignmentModel>)
    requires
        opcode::loop_for(f, k, v) matches Some(d) && d.counter is Some,
        (opcode::loop_for(f, k, v)->0).counter->0.step < i32::MAX,
    ensures
        ({
            let d = opcode::loop_for(f, k, v)->0;
            let c = d.counter->0;
            c.step > 0 && exists|j: int, body: ExprModel, counts: bool|
                has_other_body(f, k, d.ip, j, c.property, body) && #[trigger] counts_by(
                    body,
                    c,
                    counts,
                ) && #[trigger] has_other_body(f, k, d.ip, j, c.property, body)
        }),
{
    reveal(opcode::loop_for);
    let d = opcode::loop_for(f, k, v)->0;
    let c = d.counter->0;
    lemma_counter_in(f.members, k, d.ip);
    let j = choose|j: int|
        0 <= j < f.members.len() && (#[trigger] f.members[j]).property != d.ip
            && f.members[j].bodies.contains_key(k) && shapes::counter_shape(
            f.members[j].bodies[k],
            f.members[j].property,
        ) == Some(c);
    let body = f.members[j].bodies[k];
    lemma_counter(body, f.members[j].property);
    assert(has_other_body(f, k, d.ip, j, c.property, body));
}

// ---------------------------------------------------------------------------
// Staying and advancing
// ---------------------------------------------------------------------------

/// Does a body stay, at the prior value less an extra, while the predicate is met
/// (or while it is not, if `stays` is false), and advance by a literal otherwise?
pub open spec fn stays_or_advances(
    body: ExprModel,
    prior: Seq<char>,
    advance: i32,
    extra: Option<Seq<char>>,
    predicate: TestModel,
    stays: bool,
) -> bool {
    forall|r: Reading|
        (#[trigger] value(body, r)) matches Some(x) ==> if met(predicate, r) == stays {
            extra matches Some(less) ==> x == (r.vars)(prior) - (r.vars)(less)
        } else {
            i32::MIN < advance < i32::MAX ==> x == (r.vars)(prior) + advance
        }
}

proof fn lemma_ip(body: ExprModel)
    requires
        shapes::ip_shape(body) is Some,
    ensures
        ({
            let m = shapes::ip_shape(body)->0;
            stays_or_advances(body, m.prior, m.advance, m.extra, m.predicate, m.holds_means_stay)
        }),
{
    let m = shapes::ip_shape(body)->0;
    if let ExprModel::Cond(branches, fallback) = body {
        let then = branches[0].body;
        let (stay, advance) = if m.holds_means_stay {
            (then, *fallback)
        } else {
            (*fallback, then)
        };
        assert forall|r: Reading| (#[trigger] value(body, r)) is Some implies if met(
            m.predicate,
            r,
        ) == m.holds_means_stay {
            m.extra matches Some(less) ==> value(body, r)->0 == (r.vars)(m.prior) - (r.vars)(less)
        } else {
            i32::MIN < m.advance < i32::MAX ==> value(body, r)->0 == (r.vars)(m.prior) + m.advance
        } by {
            if branches.len() == 1 {
                lemma_one_branch(branches, *fallback, r);
            } else {
                lemma_same_branches(branches, then, r);
            }
            assert(value(body, r) == if met(m.predicate, r) {
                value(then, r)
            } else {
                value(*fallback, r)
            });
            lemma_binary(stay, CalcKind::Sub, r);
            lemma_binary(advance, CalcKind::Add, r);
            if i32::MIN < m.advance < i32::MAX {
                lemma_as_i32((advance.binary(CalcKind::Add)->0).1->Number_0);
            }
        }
    }
}

proof fn lemma_ip_from(members: Seq<MemberModel>, k: i64, i: nat)
    requires
        opcode::ip_from(members, k, i) is Some,
    ensures
        exists|j: int|
            i <= j < members.len() && (#[trigger] members[j]).bodies.contains_key(k)
                && members[j].property == (opcode::ip_from(members, k, i)->0).0
                && shapes::ip_shape(members[j].bodies[k]) == Some(
                (opcode::ip_from(members, k, i)->0).1,
            ),
    decreases members.len() - i,
{
    let m = members[i as int];
    if !(m.bodies.contains_key(k) && shapes::ip_shape(m.bodies[k]) is Some) {
        lemma_ip_from(members, k, i + 1);
        let j = choose|j: int|
            i + 1 <= j < members.len() && (#[trigger] members[j]).bodies.contains_key(k)
                && members[j].property == (opcode::ip_from(members, k, i + 1)->0).0
                && shapes::ip_shape(members[j].bodies[k]) == Some(
                (opcode::ip_from(members, k, i + 1)->0).1,
            );
        assert(members[j].bodies.contains_key(k));
    }
}

/// A recognised loop stays and advances as the body of its register says: whatever
/// variables hold, the body comes to the prior value less the extra where the
/// predicate says that the loop stays, and to the prior value plus the advance where
/// it says that the loop is left.
pub proof fn law_loop_stays_as_its_body(f: FamilyModel, k: i64, v: Seq<AssignmentModel>)
    requires
        opcode::loop_for(f, k, v) is Some,
    ensures
        ({
            let d = opcode::loop_for(f, k, v)->0;
            d.key == f.key && d.value == k && exists|j: int|
                0 <= j < f.members.len() && (#[trigger] f.members[j]).property == d.ip
                    && f.members[j].bodies.contains_key(k) && stays_or_advances(
                    f.members[j].bodies[k],
                    d.ip_prior,
                    d.ip_advance,
                    d.ip_extra,
                    d.predicate,
                    d.holds_means_stay,
                )
        }),
{
    reveal(opcode::loop_for);
    let d = opcode::loop_for(f, k, v)->0;
    lemma_ip_from(f.members, k, 0);
    let (ip, shape) = opcode::ip_from(f.members, k, 0)->0;
    let j = choose|j: int|
        0 <= j < f.members.len() && (#[trigger] f.members[j]).bodies.contains_key(k)
            && f.members[j].property == ip && shapes::ip_shape(f.members[j].bodies[k]) == Some(
            shape,
        );
    lemma_ip(f.members[j].bodies[k]);
    assert(f.members[j].property == d.ip);
}

// ---------------------------------------------------------------------------
// Cost
// ---------------------------------------------------------------------------

/// Does a body add a number to a variable?
pub open spec fn adds(body: ExprModel, x: Seq<char>, n: int) -> bool {
    forall|r: Reading| (#[trigger] value(body, r)) matches Some(y) ==> y == (r.vars)(x) + n
}

proof fn lemma_cost_member(members: Seq<MemberModel>, n: nat)
    requires
        n <= members.len(),
    ensures
        charge::cost_member(members, n) matches Some(b) ==> 0 <= b < n,
    decreases n,
{
    if n > 0 {
        lemma_cost_member(members, (n - 1) as nat);
    }
}

/// What a recognised loop charges per iteration is what the body of its cost counter
/// adds, whatever variables hold.
pub proof fn law_charge_is_its_body(f: FamilyModel, k: i64, v: Seq<AssignmentModel>)
    requires
        opcode::loop_for(f, k, v) matches Some(d) && d.charge is Some,
        i32::MIN < (opcode::loop_for(f, k, v)->0).charge->0.per_iter < i32::MAX,
    ensures
        ({
            let d = opcode::loop_for(f, k, v)->0;
            exists|j: int, x: Seq<char>|
                0 <= j < f.members.len() && f.members[j].property == d.charge->0.property
                    && f.members[j].bodies.contains_key(k) && #[trigger] adds(
                    f.members[j].bodies[k],
                    x,
                    d.charge->0.per_iter as int,
                )
        }),
{
    reveal(opcode::loop_for);
    let d = opcode::loop_for(f, k, v)->0;
    lemma_cost_member(f.members, f.members.len());
    let b = charge::cost_member(f.members, f.members.len())->0;
    let body = f.members[b].bodies[k];
    let (x, n) = charge::var_plus_literal(body)->0;
    assert forall|r: Reading| (#[trigger] value(body, r)) is Some implies value(body, r)->0
        == (r.vars)(x) + n by {
        lemma_binary(body, CalcKind::Add, r);
        match body.binary(CalcKind::Add)->0 {
            (ExprModel::Var(_, _), ExprModel::Number(bits)) => {
                lemma_as_i32(bits);
            },
            (ExprModel::Number(bits), ExprModel::Var(_, _)) => {
                lemma_as_i32(bits);
            },
            _ => {},
        }
    }
    assert(adds(f.members[b].bodies[k], x, n as int));
}

// ---------------------------------------------------------------------------
// Decisions at run time
// ---------------------------------------------------------------------------

/// What the properties of a program hold; functions are left open.
pub open spec fn reading_of(
    p: ProgramModel,
    s: StateModel,
    slots: Seq<i32>,
    calls: spec_fn(Seq<char>, Seq<int>) -> int,
) -> Reading {
    Reading { vars: |name: Seq<char>| p.property_or_zero(s, slots, name) as int, calls }
}

/// Does a condition compare with whole literals of 64 bits alone?
pub open spec fn compares_whole(t: TestModel) -> bool
    decreases t,
{
    match t {
        TestModel::Single(_, x) => *x matches ExprModel::Number(bits) && (number::whole_value(
            bits,
        ) matches Some(n) && i64::MIN <= n <= i64::MAX),
        TestModel::And(parts) => all_compare_whole(parts),
        TestModel::Or(parts) => all_compare_whole(parts),
    }
}

/// The same for a list of conditions.
pub open spec fn all_compare_whole(parts: Seq<TestModel>) -> bool
    decreases parts,
{
    forall|i: int| 0 <= i < parts.len() ==> compares_whole(#[trigger] parts[i])
}

/// A condition is decided at run time as it is met where its properties hold what
/// they hold then.
pub proof fn law_tests_are_met_as_decided(
    t: TestModel,
    p: ProgramModel,
    s: StateModel,
    slots: Seq<i32>,
    calls: spec_fn(Seq<char>, Seq<int>) -> int,
)
    requires
        compares_whole(t),
    ensures
        runtime::test_holds(t, p, s, slots) == met(t, reading_of(p, s, slots, calls)),
    decreases t,
{
    let r = reading_of(p, s, slots, calls);
    match t {
        TestModel::Single(property, x) => {
            let bits = (*x)->Number_0;
            assert(number::as_i64(bits) == number::whole_value(bits)->0);
        },
        TestModel::And(parts) => {
            assert forall|i: int| 0 <= i < parts.len() implies runtime::test_holds(
                #[trigger] parts[i],
                p,
                s,
                slots,
            ) == met(parts[i], r) by {
                assert(decreases_to!(parts => parts[i]));
                law_tests_are_met_as_decided(parts[i], p, s, slots, calls);
            }
            lemma_all_met(parts, r);
        },
        TestModel::Or(parts) => {
            assert forall|i: int| 0 <= i < parts.len() implies runtime::test_holds(
                #[trigger] parts[i],
                p,
                s,
                slots,
            ) == met(parts[i], r) by {
                assert(decreases_to!(parts => parts[i]));
                law_tests_are_met_as_decided(parts[i], p, s, slots, calls);
            }
            lemma_some_met(parts, r);
        },
    }
}

proof fn lemma_all_met(v: Seq<TestModel>, r: Reading)
    ensures
        all_met(v, r) <==> forall|i: int| 0 <= i < v.len() ==> met(#[trigger] v[i], r),
    decreases v.len(),
{
    if v.len() > 0 {
        let n = v.len() - 1;
        let rest = v.subrange(0, n);
        lemma_all_met(rest, r);
        assert forall|i: int| 0 <= i < n implies (#[trigger] v[i]) == rest[i] by {}
        if all_met(v, r) {
            assert forall|i: int| 0 <= i < v.len() implies met(#[trigger] v[i], r) by {
                if i < n {
                    assert(met(rest[i], r));
                }
            }
        }
        if forall|i: int| 0 <= i < v.len() ==> met(#[trigger] v[i], r) {
            assert forall|i: int| 0 <= i < rest.len() implies met(#[trigger] rest[i], r) by {
                assert(met(v[i], r));
            }
        }
    }
}

proof fn lemma_some_met(v: Seq<TestModel>, r: Reading)
    ensures
        some_met(v, r) <==> exists|i: int| 0 <= i < v.len() && met(#[trigger] v[i], r),
    decreases v.len(),
{
    if v.len() > 0 {
        let n = v.len() - 1;
        let rest = v.subrange(0, n);
        lemma_some_met(rest, r);
        if some_met(rest, r) {
            let i = choose|i: int| 0 <= i < rest.len() && met(#[trigger] rest[i], r);
            assert(v[i] == rest[i]);
        }
        if exists|i: int| 0 <= i < v.len() && met(#[trigger] v[i], r) {
            let i = choose|i: int| 0 <= i < v.len() && met(#[trigger] v[i], r);
            if i < n {
                assert(rest[i] == v[i]);
            }
        }
    }
}

/// Where a recognised loop is found to stay, the body of its register comes to the
/// prior value less the extra, and where it is found to be left, to the prior value
/// plus the advance.
pub proof fn law_loop_decides_as_its_body(
    f: FamilyModel,
    k: i64,
    v: Seq<AssignmentModel>,
    p: ProgramModel,
    s: StateModel,
    slots: Seq<i32>,
    calls: spec_fn(Seq<char>, Seq<int>) -> int,
)
    requires
        opcode::loop_for(f, k, v) matches Some(d) && compares_whole(d.predicate),
    ensures
        ({
            let d = opcode::loop_for(f, k, v)->0;
            let get = |name: Seq<char>| p.property_or_zero(s, slots, name) as int;
            exists|j: int|
                0 <= j < f.members.len() && (#[trigger] f.members[j]).property == d.ip
                    && f.members[j].bodies.contains_key(k) && (value(
                    f.members[j].bodies[k],
                    reading_of(p, s, slots, calls),
                ) matches Some(x) ==> if runtime::stays(d, p, s, slots) {
                    d.ip_extra matches Some(less) ==> x == get(d.ip_prior) - get(less)
                } else {
                    i32::MIN < d.ip_advance < i32::MAX ==> x == get(d.ip_prior) + d.ip_advance
                })
        }),
{
    law_loop_stays_as_its_body(f, k, v);
    let d = opcode::loop_for(f, k, v)->0;
    law_tests_are_met_as_decided(d.predicate, p, s, slots, calls);
    let j = choose|j: int|
        0 <= j < f.members.len() && (#[trigger] f.members[j]).property == d.ip
            && f.members[j].bodies.contains_key(k) && stays_or_advances(
            f.members[j].bodies[k],
            d.ip_prior,
            d.ip_advance,
            d.ip_extra,
            d.predicate,
            d.holds_means_stay,
        );
    let r = reading_of(p, s, slots, calls);
    assert(f.members[j].property == d.ip);
    let x = value(f.members[j].bodies[k], r);
}

} // verus!
