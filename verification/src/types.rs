//! Core type definitions for the intermediate representation of
//! computational CSS, and the mathematical values they stand for.

use crate::number::Number;
use crate::pattern::broadcast_write::BroadcastWrite;
use crate::pattern::packed_broadcast_write::PackedSlotPort;
use std::collections::HashSet;
use vstd::prelude::*;

verus! {

/// A raw CSS value (before expression parsing).
#[derive(Debug, PartialEq, Eq, Hash)]
pub enum CssValue {
    /// An integer value from `initial-value`.
    Integer(i64),
    /// A string value from `initial-value`.
    String(String),
}

/// A parsed `@property` declaration.
#[derive(Debug, PartialEq, Eq, Hash)]
pub struct PropertyDef {
    /// Property name (e.g. `"--AX"`).
    pub name: String,
    /// The `syntax` descriptor.
    pub syntax: PropertySyntax,
    /// Whether the property inherits.
    pub inherits: bool,
    /// The `initial-value` descriptor.
    pub initial_value: Option<CssValue>,
}

/// The `syntax` descriptor of an `@property` rule.
#[derive(Debug, PartialEq, Eq, Hash)]
pub enum PropertySyntax {
    /// `<integer>`.
    Integer,
    /// `<number>`.
    Number,
    /// `<length>`.
    Length,
    /// Any other syntax string.
    Custom(String),
    /// `*` (universal).
    Any,
}

/// A parsed `@function` definition.
#[derive(Debug, PartialEq, Eq, Hash)]
pub struct FunctionDef {
    /// Function name (e.g. `"--readMem"`).
    pub name: String,
    /// Declared parameters.
    pub parameters: Vec<FunctionParam>,
    /// Local variable definitions (evaluated on call).
    pub locals: Vec<LocalVarDef>,
    /// The `result:` expression.
    pub result: Expr,
}

/// A parameter of a `@function`.
#[derive(Debug, PartialEq, Eq, Hash)]
pub struct FunctionParam {
    /// Parameter name (e.g. `"--at"`).
    pub name: String,
    /// Declared syntax type.
    pub syntax: PropertySyntax,
}

/// A local variable within a `@function`.
#[derive(Debug, PartialEq, Eq, Hash)]
pub struct LocalVarDef {
    /// Variable name.
    pub name: String,
    /// Initializer expression.
    pub value: Expr,
}

/// Expression tree: the core representation of CSS computational values.
///
/// Literals compare by bit pattern, so equality is an equivalence on all of
/// them, NaN and signed zeroes included.
#[derive(Debug, Eq, Hash)]
#[allow(inconsistent_fields)]
pub enum Expr {
    /// A literal numeric value.
    Literal(Number),
    /// A literal string value (for display functions like `--i2char`).
    StringLiteral(String),
    /// A `var(--name)` reference, with optional fallback.
    Var {
        /// The property name being referenced.
        name: String,
        /// Fallback expression if the variable is undefined.
        fallback: Option<Box<Expr>>,
    },
    /// `calc()` and other math functions.
    Calc(CalcOp),
    /// `if(style(--prop: val): then; else: otherwise)` conditional.
    StyleCondition {
        /// Ordered condition branches to test.
        branches: Vec<StyleBranch>,
        /// Default value when no branch matches.
        fallback: Box<Expr>,
    },
    /// A `@function` call: `--funcName(arg1, arg2)`.
    FunctionCall {
        /// The function name.
        name: String,
        /// Argument expressions.
        args: Vec<Expr>,
    },
    /// Space-separated concatenation of expressions.
    Concat(Vec<Expr>),
}

/// A single branch in an `if(style(...): ...)` chain.
#[derive(Debug, PartialEq, Eq, Hash)]
pub struct StyleBranch {
    /// The condition: a single `style()` test or a compound `and`/`or`.
    pub condition: StyleTest,
    /// Expression to evaluate when the condition matches.
    pub then: Expr,
}

/// A style condition test inside `if()`.
#[derive(Debug, PartialEq, Eq, Hash)]
pub enum StyleTest {
    /// A single `style(--prop: val)` test.
    Single {
        /// The property being tested.
        property: String,
        /// The value to compare against.
        value: Expr,
    },
    /// `condition1 and condition2`: all must match.
    And(Vec<StyleTest>),
    /// `condition1 or condition2`: any must match.
    Or(Vec<StyleTest>),
}

/// Arithmetic / math operations from `calc()`, `mod()`, `round()`, etc.
#[derive(Debug, PartialEq, Eq, Hash)]
pub enum CalcOp {
    /// `a + b`.
    Add(Box<Expr>, Box<Expr>),
    /// `a - b`.
    Sub(Box<Expr>, Box<Expr>),
    /// `a * b`.
    Mul(Box<Expr>, Box<Expr>),
    /// `a / b` (returns 0 for division by zero).
    Div(Box<Expr>, Box<Expr>),
    /// `mod(a, b)`.
    Mod(Box<Expr>, Box<Expr>),
    /// `min(a, b, ...)`.
    Min(Vec<Expr>),
    /// `max(a, b, ...)`.
    Max(Vec<Expr>),
    /// `clamp(min, val, max)`.
    Clamp(Box<Expr>, Box<Expr>, Box<Expr>),
    /// `round(strategy, val, interval)`.
    Round(RoundStrategy, Box<Expr>, Box<Expr>),
    /// `pow(base, exp)`.
    Pow(Box<Expr>, Box<Expr>),
    /// `sign(val)`: -1, 0, or 1.
    Sign(Box<Expr>),
    /// `abs(val)`.
    Abs(Box<Expr>),
    /// Unary negation (`-val`).
    Negate(Box<Expr>),
}

/// The rounding strategy for `round()`.
#[derive(Debug, Clone, Copy, PartialEq, Eq, Hash, Structural)]
pub enum RoundStrategy {
    /// Round to nearest (ties to even).
    Nearest,
    /// Round toward positive infinity.
    Up,
    /// Round toward negative infinity.
    Down,
    /// Round toward zero.
    ToZero,
}

/// A complete parsed CSS program ready for pattern compilation.
#[derive(Debug, Default)]
pub struct ParsedProgram {
    /// `@property` declarations (used to initialise state).
    pub properties: Vec<PropertyDef>,
    /// `@function` definitions.
    pub functions: Vec<FunctionDef>,
    /// Property assignments on `.cpu`, in declaration order.
    pub assignments: Vec<Assignment>,
    /// Broadcast writes that were recognised before expression trees were built:
    /// the assignments that they stand for are not among `assignments`.
    pub prebuilt_broadcast_writes: Vec<BroadcastWrite>,
    /// Packed slot ports that were recognised in the same way.
    pub prebuilt_packed_broadcast_ports: Vec<PackedSlotPort>,
    /// Property names that were absorbed before expression trees were built.
    pub fast_path_absorbed: HashSet<String>,
    /// Input edges recognised from nested `&:has(#ID:pseudo) { --PROP: V; }`
    /// rules.
    pub input_edges: Vec<InputEdge>,
}

/// A gated assignment recognised from a nested `:has(...:pseudo)` rule.
#[derive(Debug, PartialEq, Eq, Hash)]
pub struct InputEdge {
    /// The custom property the gated rule writes (e.g. `"--keyboard"`).
    pub property: String,
    /// The pseudo-class its gate watches (e.g. `"active"`).
    pub pseudo: String,
    /// The id-selector text without the leading `#` (e.g. `"kb-1"`).
    pub selector: String,
    /// Value to apply when its gate is active.
    pub value: Expr,
}

/// A single property assignment: `--name: <expr>`.
#[derive(Debug, PartialEq, Eq, Hash)]
pub struct Assignment {
    /// The property being assigned (e.g. `"--AX"`).
    pub property: String,
    /// The value expression.
    pub value: Expr,
}

// ---------------------------------------------------------------------------
// Mathematical values
// ---------------------------------------------------------------------------

/// The operator of a math function, without its operands.
pub enum CalcKind {
    Add,
    Sub,
    Mul,
    Div,
    Mod,
    Min,
    Max,
    Clamp,
    Round(RoundStrategy),
    Pow,
    Sign,
    Abs,
    Negate,
}

/// The mathematical value of an [`Expr`].
#[verifier::ext_equal]
pub enum ExprModel {
    /// A literal, by its bit pattern.
    Number(u64),
    /// A string literal.
    Text(Seq<char>),
    /// A variable reference with its fallback.
    Var(Seq<char>, Option<Box<ExprModel>>),
    /// A math function applied to operands.
    Calc(CalcKind, Seq<ExprModel>),
    /// A conditional: branches in order, and what holds otherwise.
    Cond(Seq<BranchModel>, Box<ExprModel>),
    /// A function call.
    Call(Seq<char>, Seq<ExprModel>),
    /// A concatenation.
    Concat(Seq<ExprModel>),
}

/// The mathematical value of a [`StyleBranch`].
#[verifier::ext_equal]
pub struct BranchModel {
    pub condition: TestModel,
    pub body: ExprModel,
}

/// The mathematical value of a [`StyleTest`].
#[verifier::ext_equal]
pub enum TestModel {
    Single(Seq<char>, Box<ExprModel>),
    And(Seq<TestModel>),
    Or(Seq<TestModel>),
}

/// The mathematical value of an [`Assignment`].
#[verifier::ext_equal]
pub struct AssignmentModel {
    pub property: Seq<char>,
    pub value: ExprModel,
}

impl ExprModel {
    /// Name of a variable reference, whatever its fallback.
    pub open spec fn var_name(self) -> Option<Seq<char>> {
        match self {
            ExprModel::Var(name, _) => Some(name),
            _ => None,
        }
    }

    /// Name of a variable reference without fallback.
    pub open spec fn bare_var(self) -> Option<Seq<char>> {
        match self {
            ExprModel::Var(name, None) => Some(name),
            _ => None,
        }
    }

    /// Operands, if this is the math function `kind` with two of them.
    pub open spec fn binary(self, kind: CalcKind) -> Option<(ExprModel, ExprModel)> {
        match self {
            ExprModel::Calc(k, parts) => if k == kind && parts.len() == 2 {
                Some((parts[0], parts[1]))
            } else {
                None
            },
            _ => None,
        }
    }

    /// Operand, if this is a negation.
    pub open spec fn negated(self) -> Option<ExprModel> {
        match self {
            ExprModel::Calc(CalcKind::Negate, parts) => if parts.len() == 1 {
                Some(parts[0])
            } else {
                None
            },
            _ => None,
        }
    }
}

impl CalcKind {
    /// The two-operand operators `+ - * / mod pow`.
    pub open spec fn is_arithmetic(self) -> bool {
        match self {
            CalcKind::Add | CalcKind::Sub | CalcKind::Mul | CalcKind::Div | CalcKind::Mod
            | CalcKind::Pow => true,
            _ => false,
        }
    }
}

impl CalcOp {
    /// The operator.
    pub open spec fn kind(&self) -> CalcKind {
        match self {
            CalcOp::Add(..) => CalcKind::Add,
            CalcOp::Sub(..) => CalcKind::Sub,
            CalcOp::Mul(..) => CalcKind::Mul,
            CalcOp::Div(..) => CalcKind::Div,
            CalcOp::Mod(..) => CalcKind::Mod,
            CalcOp::Min(..) => CalcKind::Min,
            CalcOp::Max(..) => CalcKind::Max,
            CalcOp::Clamp(..) => CalcKind::Clamp,
            CalcOp::Round(s, ..) => CalcKind::Round(*s),
            CalcOp::Pow(..) => CalcKind::Pow,
            CalcOp::Sign(..) => CalcKind::Sign,
            CalcOp::Abs(..) => CalcKind::Abs,
            CalcOp::Negate(..) => CalcKind::Negate,
        }
    }

    /// The operands, in order.
    pub open spec fn parts(&self) -> Seq<Expr> {
        match self {
            CalcOp::Add(a, b) => seq![**a, **b],
            CalcOp::Sub(a, b) => seq![**a, **b],
            CalcOp::Mul(a, b) => seq![**a, **b],
            CalcOp::Div(a, b) => seq![**a, **b],
            CalcOp::Mod(a, b) => seq![**a, **b],
            CalcOp::Min(v) => v@,
            CalcOp::Max(v) => v@,
            CalcOp::Clamp(a, b, c) => seq![**a, **b, **c],
            CalcOp::Round(_, a, b) => seq![**a, **b],
            CalcOp::Pow(a, b) => seq![**a, **b],
            CalcOp::Sign(a) => seq![**a],
            CalcOp::Abs(a) => seq![**a],
            CalcOp::Negate(a) => seq![**a],
        }
    }

    /// The values of the operands, in order.
    pub open spec fn parts_view(&self) -> Seq<ExprModel>
        decreases self,
    {
        match self {
            CalcOp::Add(a, b) => seq![a.view(), b.view()],
            CalcOp::Sub(a, b) => seq![a.view(), b.view()],
            CalcOp::Mul(a, b) => seq![a.view(), b.view()],
            CalcOp::Div(a, b) => seq![a.view(), b.view()],
            CalcOp::Mod(a, b) => seq![a.view(), b.view()],
            CalcOp::Min(v) => exprs_view(v@),
            CalcOp::Max(v) => exprs_view(v@),
            CalcOp::Clamp(a, b, c) => seq![a.view(), b.view(), c.view()],
            CalcOp::Round(_, a, b) => seq![a.view(), b.view()],
            CalcOp::Pow(a, b) => seq![a.view(), b.view()],
            CalcOp::Sign(a) => seq![a.view()],
            CalcOp::Abs(a) => seq![a.view()],
            CalcOp::Negate(a) => seq![a.view()],
        }
    }

    /// Operands are smaller than the operation, and their values are the
    /// operation's operand values.
    pub proof fn lemma_parts(&self)
        ensures
            self.parts_view() == exprs_view(self.parts()),
            forall|i: int|
                0 <= i < self.parts().len() ==> (#[trigger] decreases_to!(
                    *self => self.parts()[i]
                )),
    {
        assert(self.parts_view() =~= exprs_view(self.parts()));
    }

    /// The operands, in order.
    pub fn operands(&self) -> (r: Vec<&Expr>)
        ensures
            r@.len() == self.parts().len(),
            forall|i: int| 0 <= i < r@.len() ==> *(#[trigger] r@[i]) == self.parts()[i],
    {
        let mut out: Vec<&Expr> = Vec::new();
        match self {
            CalcOp::Add(a, b) | CalcOp::Sub(a, b) | CalcOp::Mul(a, b) | CalcOp::Div(a, b)
            | CalcOp::Mod(a, b) | CalcOp::Pow(a, b) | CalcOp::Round(_, a, b) => {
                out.push(&**a);
                out.push(&**b);
            },
            CalcOp::Clamp(a, b, c) => {
                out.push(&**a);
                out.push(&**b);
                out.push(&**c);
            },
            CalcOp::Sign(a) | CalcOp::Abs(a) | CalcOp::Negate(a) => {
                out.push(&**a);
            },
            CalcOp::Min(v) | CalcOp::Max(v) => {
                let n: usize = v.len();
                let mut i: usize = 0;
                while i < n
                    invariant
                        i <= n == v@.len(),
                        out@.len() == i,
                        forall|j: int| 0 <= j < i ==> *(#[trigger] out@[j]) == v@[j],
                    decreases n - i,
                {
                    out.push(&v[i]);
                    i += 1;
                }
            },
        }
        out
    }
}

/// The operand values of an operation, variant by variant.
proof fn lemma_parts_view(op: CalcOp)
    ensures
        op.parts_view() == (match op {
            CalcOp::Add(a, b) => seq![a.view(), b.view()],
            CalcOp::Sub(a, b) => seq![a.view(), b.view()],
            CalcOp::Mul(a, b) => seq![a.view(), b.view()],
            CalcOp::Div(a, b) => seq![a.view(), b.view()],
            CalcOp::Mod(a, b) => seq![a.view(), b.view()],
            CalcOp::Min(v) => exprs_view(v@),
            CalcOp::Max(v) => exprs_view(v@),
            CalcOp::Clamp(a, b, c) => seq![a.view(), b.view(), c.view()],
            CalcOp::Round(_, a, b) => seq![a.view(), b.view()],
            CalcOp::Pow(a, b) => seq![a.view(), b.view()],
            CalcOp::Sign(a) => seq![a.view()],
            CalcOp::Abs(a) => seq![a.view()],
            CalcOp::Negate(a) => seq![a.view()],
        }),
{
}

/// The value of a math function, variant by variant.
pub proof fn lemma_calc(e: &Expr)
    ensures
        match *e {
            Expr::Calc(op) => e.view() == ExprModel::Calc(op.kind(), op.parts_view())
                && op.parts_view() == (match op {
                CalcOp::Add(a, b) => seq![a.view(), b.view()],
                CalcOp::Sub(a, b) => seq![a.view(), b.view()],
                CalcOp::Mul(a, b) => seq![a.view(), b.view()],
                CalcOp::Div(a, b) => seq![a.view(), b.view()],
                CalcOp::Mod(a, b) => seq![a.view(), b.view()],
                CalcOp::Min(v) => exprs_view(v@),
                CalcOp::Max(v) => exprs_view(v@),
                CalcOp::Clamp(a, b, c) => seq![a.view(), b.view(), c.view()],
                CalcOp::Round(_, a, b) => seq![a.view(), b.view()],
                CalcOp::Pow(a, b) => seq![a.view(), b.view()],
                CalcOp::Sign(a) => seq![a.view()],
                CalcOp::Abs(a) => seq![a.view()],
                CalcOp::Negate(a) => seq![a.view()],
            }),
            _ => !(e.view() is Calc),
        },
{
    match *e {
        Expr::Calc(op) => {
            lemma_parts_view(op);
        },
        _ => {},
    }
}

/// The values of a list of expressions.
pub open spec fn exprs_view(v: Seq<Expr>) -> Seq<ExprModel>
    decreases v,
{
    Seq::new(
        v.len(),
        |i: int|
            if 0 <= i < v.len() {
                v[i].view()
            } else {
                arbitrary()
            },
    )
}

/// The values of a list of branches.
pub open spec fn branches_view(v: Seq<StyleBranch>) -> Seq<BranchModel>
    decreases v,
{
    Seq::new(
        v.len(),
        |i: int|
            if 0 <= i < v.len() {
                v[i].view()
            } else {
                arbitrary()
            },
    )
}

/// The values of a list of tests.
pub open spec fn tests_view(v: Seq<StyleTest>) -> Seq<TestModel>
    decreases v,
{
    Seq::new(
        v.len(),
        |i: int|
            if 0 <= i < v.len() {
                v[i].view()
            } else {
                arbitrary()
            },
    )
}

/// The values of a list of assignments.
pub open spec fn assignments_view(v: Seq<Assignment>) -> Seq<AssignmentModel> {
    Seq::new(v.len(), |i: int| v[i].view())
}

impl Expr {
    /// The value of an expression.
    pub open spec fn view(&self) -> ExprModel
        decreases self,
    {
        match self {
            Expr::Literal(n) => ExprModel::Number(n.bits),
            Expr::StringLiteral(s) => ExprModel::Text(s@),
            Expr::Var { name, fallback } => ExprModel::Var(
                name@,
                match fallback {
                    Some(e) => Some(Box::new(e.view())),
                    None => None,
                },
            ),
            Expr::Calc(op) => ExprModel::Calc(op.kind(), op.parts_view()),
            Expr::StyleCondition { branches, fallback } => ExprModel::Cond(
                branches_view(branches@),
                Box::new(fallback.view()),
            ),
            Expr::FunctionCall { name, args } => ExprModel::Call(name@, exprs_view(args@)),
            Expr::Concat(v) => ExprModel::Concat(exprs_view(v@)),
        }
    }
}

impl StyleBranch {
    /// The expression of the branch.
    pub open spec fn spec_body(&self) -> Expr {
        match self {
            StyleBranch { condition: _, then } => *then,
        }
    }

    /// The value of a branch.
    pub open spec fn view(&self) -> BranchModel
        decreases self,
    {
        match self {
            StyleBranch { condition, then } => BranchModel {
                condition: condition.view(),
                body: then.view(),
            },
        }
    }

    /// The expression of the branch.
    pub fn body(&self) -> (r: &Expr)
        ensures
            *r == self.spec_body(),
            r.view() == self.view().body,
            decreases_to!(*self => *r),
    {
        match self {
            StyleBranch { condition: _, then } => then,
        }
    }
}

impl StyleTest {
    /// The value of a test.
    pub open spec fn view(&self) -> TestModel
        decreases self,
    {
        match self {
            StyleTest::Single { property, value } => TestModel::Single(
                property@,
                Box::new(value.view()),
            ),
            StyleTest::And(v) => TestModel::And(tests_view(v@)),
            StyleTest::Or(v) => TestModel::Or(tests_view(v@)),
        }
    }
}

impl Assignment {
    /// The value of an assignment.
    pub open spec fn view(&self) -> AssignmentModel {
        AssignmentModel { property: self.property@, value: self.value.view() }
    }
}

// ---------------------------------------------------------------------------
// Copies
// ---------------------------------------------------------------------------

fn clone_exprs(v: &Vec<Expr>) -> (r: Vec<Expr>)
    ensures
        exprs_view(r@) == exprs_view(v@),
    decreases v,
{
    let mut out: Vec<Expr> = Vec::new();
    let mut i: usize = 0;
    while i < v.len()
        invariant
            i <= v@.len(),
            out@.len() == i,
            forall|j: int| 0 <= j < i ==> (#[trigger] out@[j]).view() == v@[j].view(),
        decreases v@.len() - i,
    {
        let e = v[i].clone();
        out.push(e);
        i += 1;
    }
    assert(exprs_view(out@) =~= exprs_view(v@));
    out
}

fn clone_branches(v: &Vec<StyleBranch>) -> (r: Vec<StyleBranch>)
    ensures
        branches_view(r@) == branches_view(v@),
    decreases v,
{
    let mut out: Vec<StyleBranch> = Vec::new();
    let mut i: usize = 0;
    while i < v.len()
        invariant
            i <= v@.len(),
            out@.len() == i,
            forall|j: int| 0 <= j < i ==> (#[trigger] out@[j]).view() == v@[j].view(),
        decreases v@.len() - i,
    {
        let e = v[i].clone();
        out.push(e);
        i += 1;
    }
    assert(branches_view(out@) =~= branches_view(v@));
    out
}

/// A copy of a list of tests.
pub fn clone_tests(v: &Vec<StyleTest>) -> (r: Vec<StyleTest>)
    ensures
        tests_view(r@) == tests_view(v@),
    decreases v,
{
    let mut out: Vec<StyleTest> = Vec::new();
    let mut i: usize = 0;
    while i < v.len()
        invariant
            i <= v@.len(),
            out@.len() == i,
            forall|j: int| 0 <= j < i ==> (#[trigger] out@[j]).view() == v@[j].view(),
        decreases v@.len() - i,
    {
        let e = v[i].clone();
        out.push(e);
        i += 1;
    }
    assert(tests_view(out@) =~= tests_view(v@));
    out
}

impl Clone for Expr {
    fn clone(&self) -> (r: Self)
        ensures
            r.view() == self.view(),
        decreases self,
    {
        match self {
            Expr::Literal(n) => Expr::Literal(*n),
            Expr::StringLiteral(s) => Expr::StringLiteral(s.clone()),
            Expr::Var { name, fallback } => {
                let copy: Option<Box<Expr>> = match fallback {
                    Some(e) => Some(Box::new((**e).clone())),
                    None => None,
                };
                Expr::Var { name: name.clone(), fallback: copy }
            },
            Expr::Calc(op) => Expr::Calc(op.clone()),
            Expr::StyleCondition { branches, fallback } => Expr::StyleCondition {
                branches: clone_branches(branches),
                fallback: Box::new((**fallback).clone()),
            },
            Expr::FunctionCall { name, args } => Expr::FunctionCall {
                name: name.clone(),
                args: clone_exprs(args),
            },
            Expr::Concat(v) => Expr::Concat(clone_exprs(v)),
        }
    }
}

impl Clone for StyleBranch {
    fn clone(&self) -> (r: Self)
        ensures
            r.view() == self.view(),
        decreases self,
    {
        StyleBranch { condition: self.condition.clone(), then: self.body().clone() }
    }
}

impl Clone for StyleTest {
    fn clone(&self) -> (r: Self)
        ensures
            r.view() == self.view(),
        decreases self,
    {
        match self {
            StyleTest::Single { property, value } => StyleTest::Single {
                property: property.clone(),
                value: value.clone(),
            },
            StyleTest::And(v) => StyleTest::And(clone_tests(v)),
            StyleTest::Or(v) => StyleTest::Or(clone_tests(v)),
        }
    }
}

impl Clone for CalcOp {
    fn clone(&self) -> (r: Self)
        ensures
            r.kind() == self.kind(),
            r.parts_view() == self.parts_view(),
        decreases self,
    {
        match self {
            CalcOp::Add(a, b) => CalcOp::Add(Box::new((**a).clone()), Box::new((**b).clone())),
            CalcOp::Sub(a, b) => CalcOp::Sub(Box::new((**a).clone()), Box::new((**b).clone())),
            CalcOp::Mul(a, b) => CalcOp::Mul(Box::new((**a).clone()), Box::new((**b).clone())),
            CalcOp::Div(a, b) => CalcOp::Div(Box::new((**a).clone()), Box::new((**b).clone())),
            CalcOp::Mod(a, b) => CalcOp::Mod(Box::new((**a).clone()), Box::new((**b).clone())),
            CalcOp::Pow(a, b) => CalcOp::Pow(Box::new((**a).clone()), Box::new((**b).clone())),
            CalcOp::Round(s, a, b) => CalcOp::Round(
                *s,
                Box::new((**a).clone()),
                Box::new((**b).clone()),
            ),
            CalcOp::Min(v) => CalcOp::Min(clone_exprs(v)),
            CalcOp::Max(v) => CalcOp::Max(clone_exprs(v)),
            CalcOp::Clamp(a, b, c) => CalcOp::Clamp(
                Box::new((**a).clone()),
                Box::new((**b).clone()),
                Box::new((**c).clone()),
            ),
            CalcOp::Sign(a) => CalcOp::Sign(Box::new((**a).clone())),
            CalcOp::Abs(a) => CalcOp::Abs(Box::new((**a).clone())),
            CalcOp::Negate(a) => CalcOp::Negate(Box::new((**a).clone())),
        }
    }
}

// ---------------------------------------------------------------------------
// Equality
// ---------------------------------------------------------------------------

impl PartialEq for Expr {
    fn eq(&self, other: &Self) -> (r: bool) {
        same_expr(self, other)
    }
}

impl vstd::std_specs::cmp::PartialEqSpecImpl for Expr {
    open spec fn obeys_eq_spec() -> bool {
        true
    }

    open spec fn eq_spec(&self, other: &Self) -> bool {
        self.view() == other.view()
    }
}

fn same_exprs(a: &Vec<Expr>, b: &Vec<Expr>) -> (r: bool)
    ensures
        r == (exprs_view(a@) == exprs_view(b@)),
    decreases a,
{
    if a.len() != b.len() {
        assert(exprs_view(a@).len() != exprs_view(b@).len());
        return false;
    }
    let mut i: usize = 0;
    while i < a.len()
        invariant
            i <= a@.len() == b@.len(),
            forall|j: int| 0 <= j < i ==> exprs_view(a@)[j] == exprs_view(b@)[j],
        decreases a@.len() - i,
    {
        if !same_expr(&a[i], &b[i]) {
            assert(exprs_view(a@)[i as int] != exprs_view(b@)[i as int]);
            return false;
        }
        i += 1;
    }
    assert(exprs_view(a@) =~= exprs_view(b@));
    true
}

/// Do two lists of tests have the same values?
pub fn same_tests(a: &Vec<StyleTest>, b: &Vec<StyleTest>) -> (r: bool)
    ensures
        r == (tests_view(a@) == tests_view(b@)),
    decreases a,
{
    if a.len() != b.len() {
        assert(tests_view(a@).len() != tests_view(b@).len());
        return false;
    }
    let mut i: usize = 0;
    while i < a.len()
        invariant
            i <= a@.len() == b@.len(),
            forall|j: int| 0 <= j < i ==> tests_view(a@)[j] == tests_view(b@)[j],
        decreases a@.len() - i,
    {
        if !same_test(&a[i], &b[i]) {
            assert(tests_view(a@)[i as int] != tests_view(b@)[i as int]);
            return false;
        }
        i += 1;
    }
    assert(tests_view(a@) =~= tests_view(b@));
    true
}

fn same_branches(a: &Vec<StyleBranch>, b: &Vec<StyleBranch>) -> (r: bool)
    ensures
        r == (branches_view(a@) == branches_view(b@)),
    decreases a,
{
    if a.len() != b.len() {
        assert(branches_view(a@).len() != branches_view(b@).len());
        return false;
    }
    let mut i: usize = 0;
    while i < a.len()
        invariant
            i <= a@.len() == b@.len(),
            forall|j: int| 0 <= j < i ==> branches_view(a@)[j] == branches_view(b@)[j],
        decreases a@.len() - i,
    {
        let same = same_test(&a[i].condition, &b[i].condition) && same_expr(
            a[i].body(),
            b[i].body(),
        );
        if !same {
            assert(branches_view(a@)[i as int] != branches_view(b@)[i as int]);
            return false;
        }
        i += 1;
    }
    assert(branches_view(a@) =~= branches_view(b@));
    true
}

/// Do two tests have the same value?
pub fn same_test(a: &StyleTest, b: &StyleTest) -> (r: bool)
    ensures
        r == (a.view() == b.view()),
    decreases a,
{
    match (a, b) {
        (
            StyleTest::Single { property: p, value: v },
            StyleTest::Single { property: q, value: w },
        ) => *p == *q && same_expr(v, w),
        (StyleTest::And(v), StyleTest::And(w)) => same_tests(v, w),
        (StyleTest::Or(v), StyleTest::Or(w)) => same_tests(v, w),
        _ => false,
    }
}

fn same_calc(a: &CalcOp, b: &CalcOp) -> (r: bool)
    ensures
        r == (a.kind() == b.kind() && a.parts_view() == b.parts_view()),
    decreases a,
{
    let same_kind = match (a, b) {
        (CalcOp::Add(..), CalcOp::Add(..)) => true,
        (CalcOp::Sub(..), CalcOp::Sub(..)) => true,
        (CalcOp::Mul(..), CalcOp::Mul(..)) => true,
        (CalcOp::Div(..), CalcOp::Div(..)) => true,
        (CalcOp::Mod(..), CalcOp::Mod(..)) => true,
        (CalcOp::Min(..), CalcOp::Min(..)) => true,
        (CalcOp::Max(..), CalcOp::Max(..)) => true,
        (CalcOp::Clamp(..), CalcOp::Clamp(..)) => true,
        (CalcOp::Round(s, ..), CalcOp::Round(t, ..)) => *s == *t,
        (CalcOp::Pow(..), CalcOp::Pow(..)) => true,
        (CalcOp::Sign(..), CalcOp::Sign(..)) => true,
        (CalcOp::Abs(..), CalcOp::Abs(..)) => true,
        (CalcOp::Negate(..), CalcOp::Negate(..)) => true,
        _ => false,
    };
    if !same_kind {
        return false;
    }
    proof {
        a.lemma_parts();
        b.lemma_parts();
    }
    let x = a.operands();
    let y = b.operands();
    if x.len() != y.len() {
        assert(a.parts_view().len() != b.parts_view().len());
        return false;
    }
    let mut i: usize = 0;
    while i < x.len()
        invariant
            i <= x@.len() == y@.len(),
            x@.len() == a.parts().len(),
            y@.len() == b.parts().len(),
            forall|j: int| 0 <= j < x@.len() ==> *(#[trigger] x@[j]) == a.parts()[j],
            forall|j: int| 0 <= j < y@.len() ==> *(#[trigger] y@[j]) == b.parts()[j],
            forall|j: int|
                0 <= j < a.parts().len() ==> (#[trigger] decreases_to!(*a => a.parts()[j])),
            a.parts_view() == exprs_view(a.parts()),
            b.parts_view() == exprs_view(b.parts()),
            a.kind() == b.kind(),
            forall|j: int| 0 <= j < i ==> a.parts_view()[j] == b.parts_view()[j],
        decreases x@.len() - i,
    {
        assert(decreases_to!(*a => a.parts()[i as int]));
        if !same_expr(x[i], y[i]) {
            assert(a.parts_view()[i as int] != b.parts_view()[i as int]);
            return false;
        }
        i += 1;
    }
    assert(a.parts_view() =~= b.parts_view());
    true
}

/// Do two expressions have the same value?
pub fn same_expr(a: &Expr, b: &Expr) -> (r: bool)
    ensures
        r == (a.view() == b.view()),
    decreases a,
{
    match (a, b) {
        (Expr::Literal(x), Expr::Literal(y)) => x.bits == y.bits,
        (Expr::StringLiteral(x), Expr::StringLiteral(y)) => *x == *y,
        (Expr::Var { name: n, fallback: f }, Expr::Var { name: m, fallback: g }) => *n == *m
            && match (f, g) {
            (Some(x), Some(y)) => same_expr(x, y),
            (None, None) => true,
            _ => false,
        },
        (Expr::Calc(x), Expr::Calc(y)) => same_calc(x, y),
        (
            Expr::StyleCondition { branches: x, fallback: f },
            Expr::StyleCondition { branches: y, fallback: g },
        ) => same_branches(x, y) && same_expr(f, g),
        (Expr::FunctionCall { name: n, args: x }, Expr::FunctionCall { name: m, args: y }) => *n
            == *m && same_exprs(x, y),
        (Expr::Concat(x), Expr::Concat(y)) => same_exprs(x, y),
        _ => false,
    }
}

} // verus!
