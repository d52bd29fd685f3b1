//! Copies of declarations and of parsed programs.

use crate::pattern::broadcast_write;
use crate::pattern::broadcast_write::{BroadcastWrite, WriteModel};
use crate::pattern::packed_broadcast_write::{PackedSlotPort, PortKey};
use crate::types;
use crate::types::{
    Assignment, AssignmentModel, CssValue, ExprModel, FunctionDef, FunctionParam, InputEdge,
    LocalVarDef, ParsedProgram, PropertyDef, PropertySyntax,
};
use std::collections::HashSet;
use vstd::prelude::*;

verus! {

// ---------------------------------------------------------------------------
// Mathematical values
// ---------------------------------------------------------------------------

/// The value of a [`LocalVarDef`].
#[verifier::ext_equal]
pub struct LocalModel {
    pub name: Seq<char>,
    pub value: ExprModel,
}

/// The value of a [`FunctionDef`].
#[verifier::ext_equal]
pub struct FunctionModel {
    pub name: Seq<char>,
    pub parameters: Seq<FunctionParam>,
    pub locals: Seq<LocalModel>,
    pub result: ExprModel,
}

/// The value of an [`InputEdge`].
#[verifier::ext_equal]
pub struct InputModel {
    pub property: Seq<char>,
    pub pseudo: Seq<char>,
    pub selector: Seq<char>,
    pub value: ExprModel,
}

/// The value of a [`PackedSlotPort`].
#[verifier::ext_equal]
pub struct SlotPortModel {
    pub key: PortKey,
    pub map: Map<i64, Seq<char>>,
    pub pack: u8,
}

/// The value of a [`ParsedProgram`].
#[verifier::ext_equal]
pub struct ParsedModel {
    pub properties: Seq<PropertyDef>,
    pub functions: Seq<FunctionModel>,
    pub assignments: Seq<AssignmentModel>,
    pub writes: Seq<WriteModel>,
    pub ports: Seq<SlotPortModel>,
    pub absorbed: Set<String>,
    pub edges: Seq<InputModel>,
}

impl LocalVarDef {
    /// The value of a local variable.
    pub open spec fn view(&self) -> LocalModel {
        LocalModel { name: self.name@, value: self.value.view() }
    }
}

impl FunctionDef {
    /// The value of a function.
    pub open spec fn view(&self) -> FunctionModel {
        FunctionModel {
            name: self.name@,
            parameters: self.parameters@,
            locals: Seq::new(self.locals@.len(), |i: int| self.locals@[i].view()),
            result: self.result.view(),
        }
    }
}

impl InputEdge {
    /// The value of an input edge.
    pub open spec fn view(&self) -> InputModel {
        InputModel {
            property: self.property@,
            pseudo: self.pseudo@,
            selector: self.selector@,
            value: self.value.view(),
        }
    }
}

impl PackedSlotPort {
    /// The value of a port.
    pub open spec fn view(&self) -> SlotPortModel {
        SlotPortModel { key: self.key(), map: self.map(), pack: self.pack }
    }
}

impl ParsedProgram {
    /// The value of a program.
    pub open spec fn view(&self) -> ParsedModel {
        ParsedModel {
            properties: self.properties@,
            functions: Seq::new(self.functions@.len(), |i: int| self.functions@[i].view()),
            assignments: types::assignments_view(self.assignments@),
            writes: broadcast_write::writes_view(self.prebuilt_broadcast_writes@),
            ports: Seq::new(
                self.prebuilt_packed_broadcast_ports@.len(),
                |i: int| self.prebuilt_packed_broadcast_ports@[i].view(),
            ),
            absorbed: self.fast_path_absorbed@,
            edges: Seq::new(self.input_edges@.len(), |i: int| self.input_edges@[i].view()),
        }
    }
}

// ---------------------------------------------------------------------------
// Declarations
// ---------------------------------------------------------------------------

impl Clone for CssValue {
    fn clone(&self) -> (r: Self)
        ensures
            r == *self,
    {
        match self {
            CssValue::Integer(v) => CssValue::Integer(*v),
            CssValue::String(s) => CssValue::String(s.clone()),
        }
    }
}

impl Clone for PropertySyntax {
    fn clone(&self) -> (r: Self)
        ensures
            r == *self,
    {
        match self {
            PropertySyntax::Integer => PropertySyntax::Integer,
            PropertySyntax::Number => PropertySyntax::Number,
            PropertySyntax::Length => PropertySyntax::Length,
            PropertySyntax::Custom(s) => PropertySyntax::Custom(s.clone()),
            PropertySyntax::Any => PropertySyntax::Any,
        }
    }
}

impl Clone for PropertyDef {
    fn clone(&self) -> (r: Self)
        ensures
            r == *self,
    {
        PropertyDef {
            name: self.name.clone(),
            syntax: self.syntax.clone(),
            inherits: self.inherits,
            initial_value: self.initial_value.clone(),
        }
    }
}

impl Clone for FunctionParam {
    fn clone(&self) -> (r: Self)
        ensures
            r == *self,
    {
        FunctionParam { name: self.name.clone(), syntax: self.syntax.clone() }
    }
}

impl Clone for LocalVarDef {
    fn clone(&self) -> (r: Self)
        ensures
            r.view() == self.view(),
    {
        LocalVarDef { name: self.name.clone(), value: self.value.clone() }
    }
}

impl Clone for FunctionDef {
    fn clone(&self) -> (r: Self)
        ensures
            r.view() == self.view(),
    {
        let r = FunctionDef {
            name: self.name.clone(),
            parameters: self.parameters.clone(),
            locals: self.locals.clone(),
            result: self.result.clone(),
        };
        assert(r.parameters@ =~= self.parameters@);
        assert(r.view().locals =~= self.view().locals);
        r
    }
}

impl Clone for InputEdge {
    fn clone(&self) -> (r: Self)
        ensures
            r.view() == self.view(),
    {
        InputEdge {
            property: self.property.clone(),
            pseudo: self.pseudo.clone(),
            selector: self.selector.clone(),
            value: self.value.clone(),
        }
    }
}

impl Clone for Assignment {
    fn clone(&self) -> (r: Self)
        ensures
            r.view() == self.view(),
    {
        Assignment { property: self.property.clone(), value: self.value.clone() }
    }
}

// ---------------------------------------------------------------------------
// Programs
// ---------------------------------------------------------------------------

impl Clone for BroadcastWrite {
    fn clone(&self) -> (r: Self)
        ensures
            r.view() == self.view(),
    {
        BroadcastWrite {
            dest_property: self.dest_property.clone(),
            value_expr: self.value_expr.clone(),
            address_map: self.address_map.clone(),
            spillover_map: self.spillover_map.clone(),
            spillover_guard: self.spillover_guard.clone(),
        }
    }
}

impl Clone for PackedSlotPort {
    fn clone(&self) -> (r: Self)
        ensures
            r.view() == self.view(),
    {
        PackedSlotPort {
            gate_property: self.gate_property.clone(),
            addr_property: self.addr_property.clone(),
            val_property: self.val_property.clone(),
            width_property: self.width_property.clone(),
            address_map: self.address_map.clone(),
            pack: self.pack,
        }
    }
}

/// `HashSet::clone`, on names: a set with the same members.
#[verifier::external_body]
fn clone_names(names: &HashSet<String>) -> (r: HashSet<String>)
    ensures
        r@ == names@,
{
    names.clone()
}

impl Clone for ParsedProgram {
    fn clone(&self) -> (r: Self)
        ensures
            r.view() == self.view(),
    {
        let r = ParsedProgram {
            properties: self.properties.clone(),
            functions: self.functions.clone(),
            assignments: self.assignments.clone(),
            prebuilt_broadcast_writes: self.prebuilt_broadcast_writes.clone(),
            prebuilt_packed_broadcast_ports: self.prebuilt_packed_broadcast_ports.clone(),
            fast_path_absorbed: clone_names(&self.fast_path_absorbed),
            input_edges: self.input_edges.clone(),
        };
        assert(r.properties@ =~= self.properties@);
        assert(r.view().functions =~= self.view().functions);
        assert(r.view().assignments =~= self.view().assignments);
        assert(r.view().writes =~= self.view().writes);
        assert(r.view().ports =~= self.view().ports);
        assert(r.view().edges =~= self.view().edges);
        r
    }
}

} // verus!
