//! What properties are assigned, and what is read through them.

use crate::pattern::loop_descriptor::shapes;
use crate::pattern::loop_descriptor::walk;
use crate::pattern::loop_descriptor::{IndirectModel, IndirectRead};
use crate::types;
use crate::types::{Assignment, AssignmentModel, CalcKind, Expr, ExprModel};
use vstd::hash_map::StringHashMap;
use crate::text;
use vstd::prelude::*;

verus! {

/// What a property is assigned last.
pub open spec fn assigned(v: Seq<AssignmentModel>, name: Seq<char>) -> Option<ExprModel>
    decreases v.len(),
{
    if v.len() == 0 {
        None
    } else if v.last().property == name {
        Some(v.last().value)
    } else {
        assigned(v.drop_last(), name)
    }
}

/// The assignments by property.
pub struct AssignmentIndex<'a> {
    assignments: &'a [Assignment],
    last: StringHashMap<usize>,
}

impl<'a> AssignmentIndex<'a> {
    /// The values of the assignments.
    pub closed spec fn view(&self) -> Seq<AssignmentModel> {
        types::assignments_view(self.assignments@)
    }

    /// Every entry points at the last assignment of its property.
    pub closed spec fn wf(&self) -> bool {
        forall|name: Seq<char>|
            if self.last@.contains_key(name) {
                self.last@[name] < self.view().len() && #[trigger] assigned(self.view(), name)
                    == Some(self.view()[self.last@[name] as int].value)
            } else {
                assigned(self.view(), name) is None
            }
    }

    /// Indexes the assignments.
    pub fn build(assignments: &'a [Assignment]) -> (r: AssignmentIndex<'a>)
        ensures
            r.wf(),
            r.view() == types::assignments_view(assignments@),
    {
        let ghost v = types::assignments_view(assignments@);
        let mut last: StringHashMap<usize> = StringHashMap::new();
        let mut i: usize = 0;
        assert(v.subrange(0, 0) =~= Seq::<AssignmentModel>::empty());
        while i < assignments.len()
            invariant
                i <= assignments@.len(),
                v == types::assignments_view(assignments@),
                forall|name: Seq<char>|
                    if last@.contains_key(name) {
                        last@[name] < i && #[trigger] assigned(v.subrange(0, i as int), name)
                            == Some(v[last@[name] as int].value)
                    } else {
                        assigned(v.subrange(0, i as int), name) is None
                    },
            decreases assignments@.len() - i,
        {
            assert(v[i as int] == assignments@[i as int].view());
            let ghost now = v.subrange(0, i + 1);
            assert(now.drop_last() =~= v.subrange(0, i as int));
            assert(now.last() == v[i as int]);
            let ghost before = last@;
            last.insert(assignments[i].property.clone(), i);
            assert forall|name: Seq<char>|
                if last@.contains_key(name) {
                    last@[name] <= i && #[trigger] assigned(now, name) == Some(
                        v[last@[name] as int].value,
                    )
                } else {
                    assigned(now, name) is None
                } by {
                let earlier = assigned(v.subrange(0, i as int), name);
                if name != now.last().property {
                    assert(last@.contains_key(name) == before.contains_key(name));
                }
            }
            i += 1;
        }
        assert(v.subrange(0, i as int) =~= v);
        AssignmentIndex { assignments, last }
    }

    /// What a property is assigned.
    pub fn get(&self, name: &str) -> (r: Option<&'a Expr>)
        requires
            self.wf(),
        ensures
            match r {
                Some(e) => assigned(self.view(), name@) == Some(e.view()),
                None => assigned(self.view(), name@) is None,
            },
    {
        match self.last.get(name) {
            Some(i) => {
                assert(assigned(self.view(), name@) == Some(self.view()[*i as int].value));
                Some(&self.assignments[*i].value)
            },
            None => {
                assert(assigned(self.view(), name@) is None);
                None
            },
        }
    }

    /// How many assignments there are.
    pub fn len(&self) -> (r: usize)
        ensures
            r == self.view().len(),
    {
        self.assignments.len()
    }
}

// ---------------------------------------------------------------------------
// Addresses
// ---------------------------------------------------------------------------

/// Segment and pointer of the first `segment * 16 + pointer` in an expression.
pub open spec fn decomposed(e: ExprModel) -> Option<(Seq<char>, Seq<char>)>
    decreases e, walk::children(e).len() + 1,
{
    match shapes::segmented(e) {
        Some(pair) => Some(pair),
        None => decomposed_from(e, 0),
    }
}

/// The same in the parts of an expression from `i` on.
pub open spec fn decomposed_from(e: ExprModel, i: nat) -> Option<(Seq<char>, Seq<char>)>
    decreases e, walk::children(e).len() - i,
{
    proof {
        walk::lemma_children(e);
    }
    if i < walk::children(e).len() {
        proof {
            assert(decreases_to!(e => walk::children(e)[i as int]));
        }
        match decomposed(walk::children(e)[i as int]) {
            Some(pair) => Some(pair),
            None => decomposed_from(e, i + 1),
        }
    } else {
        None
    }
}

/// Finds the first `segment * 16 + pointer` in an expression.
pub fn decompose_addr_expr(e: &Expr) -> (r: Option<(&String, &String)>)
    ensures
        shapes::names_are(r, decomposed(e.view())),
    decreases e,
{
    if let Some(pair) = shapes::match_segmented_address(e) {
        return Some(pair);
    }
    let parts = walk::parts_of(e);
    let mut i: usize = 0;
    while i < parts.len()
        invariant
            i <= parts@.len(),
            parts@.len() == walk::children(e.view()).len(),
            forall|j: int|
                0 <= j < parts@.len() ==> (#[trigger] parts@[j]).view() == walk::children(
                    e.view(),
                )[j] && decreases_to!(*e => *parts@[j]),
            decomposed(e.view()) == decomposed_from(e.view(), i as nat),
        decreases parts@.len() - i,
    {
        if let Some(pair) = decompose_addr_expr(parts[i]) {
            return Some(pair);
        }
        i += 1;
    }
    None
}

/// The property that is added to `pointer`; literals in the sum do not matter. A
/// segment that is multiplied by 16 is none.
pub open spec fn added_segment(e: ExprModel, pointer: Seq<char>) -> Option<Seq<char>>
    decreases e,
{
    match e {
        ExprModel::Calc(kind, parts) => if kind == CalcKind::Add && parts.len() == 2 {
            let left = parts[0];
            let right = parts[1];
            if right is Number {
                added_segment(left, pointer)
            } else if left is Number {
                added_segment(right, pointer)
            } else if left.bare_var() is Some && right.bare_var() is Some {
                if left.bare_var() == Some(pointer) {
                    right.bare_var()
                } else if right.bare_var() == Some(pointer) {
                    left.bare_var()
                } else {
                    None
                }
            } else {
                None
            }
        } else {
            None
        },
        _ => None,
    }
}

/// Finds the property that is added to `pointer`.
pub fn decompose_indirect_addr<'a>(e: &'a Expr, pointer: &String) -> (r: Option<&'a String>)
    ensures
        match r {
            Some(s) => added_segment(e.view(), pointer@) == Some(s@),
            None => added_segment(e.view(), pointer@) is None,
        },
    decreases e,
{
    let (left, right): (&'a Expr, &'a Expr) = match shapes::sum_of(e) {
        Some((a, b)) => (a, b),
        None => {
            return None;
        },
    };
    if let Expr::Literal(_) = right {
        return decompose_indirect_addr(left, pointer);
    }
    if let Expr::Literal(_) = left {
        return decompose_indirect_addr(right, pointer);
    }
    if let (Some(p), Some(s)) = (shapes::match_bare_var(left), shapes::match_bare_var(right)) {
        if *p == *pointer {
            return Some(s);
        }
        if *s == *pointer {
            return Some(p);
        }
    }
    None
}

/// A value that is a property which is assigned a call on a pointer.
pub open spec fn indirect_read(
    value: ExprModel,
    mirrors: Seq<Seq<char>>,
    v: Seq<AssignmentModel>,
) -> Option<IndirectModel> {
    match value.bare_var() {
        Some(name) => match assigned(v, name) {
            Some(ExprModel::Call(_, args)) => match walk::first_of(
                walk::names_in_list(args, true),
                mirrors,
            ) {
                Some(pointer) => Some(
                    IndirectModel {
                        segment: added_segment(args[0], pointer),
                        scaled: false,
                        pointer,
                        through: name,
                    },
                ),
                None => None,
            },
            _ => None,
        },
        None => None,
    }
}

/// Recognises a value that is read through a pointer by way of a property.
pub fn recognise_indirect_read(
    value: &Expr,
    mirrors: &Vec<String>,
    index: &AssignmentIndex<'_>,
) -> (r: Option<IndirectRead>)
    requires
        index.wf(),
    ensures
        match r {
            Some(x) => indirect_read(value.view(), text::views(mirrors@), index.view()) == Some(
                x.view(),
            ),
            None => indirect_read(value.view(), text::views(mirrors@), index.view()) is None,
        },
{
    let name: &String = match shapes::match_bare_var(value) {
        Some(n) => n,
        None => {
            return None;
        },
    };
    let body: &Expr = match index.get(name.as_str()) {
        Some(b) => b,
        None => {
            return None;
        },
    };
    match body {
        Expr::FunctionCall { name: function, args } => {
            assert(body.view() == ExprModel::Call(function@, types::exprs_view(args@)));
            if args.len() == 0 {
                assert(types::exprs_view(args@) =~= Seq::<ExprModel>::empty());
                return None;
            }
            assert(types::exprs_view(args@)[0] == args@[0].view());
            let pointer: String = match walk::first_mentioned_in_list(args, mirrors) {
                Some(p) => p,
                None => {
                    return None;
                },
            };
            let segment: Option<String> = match decompose_indirect_addr(&args[0], &pointer) {
                Some(s) => Some(s.clone()),
                None => None,
            };
            Some(
                IndirectRead {
                    seg_property: segment,
                    seg_times_sixteen: false,
                    pointer_property: pointer,
                    intermediate_property: name.clone(),
                },
            )
        },
        _ => {
            proof {
                types::lemma_calc(body);
            }
            None
        },
    }
}

} // verus!
