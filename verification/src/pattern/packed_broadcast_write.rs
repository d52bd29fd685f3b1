//! Packed broadcast writes: memory cells of two bytes, written through a chain
//! of slots.
//!
//! Each cell `--mcN` is assigned a nest of calls, one per write slot:
//!
//! ```css
//! --mcN: --applySlot(<inner>, var(--gate), calc(var(--addr) - 2N),
//!                    calc(var(--addr) + 1 - 2N), var(--val), var(--width))
//! ```
//!
//! with `var(--__1mcN)` innermost. Cells that share a slot's gate, address,
//! value and width properties form one port, a table from byte addresses to
//! cells, which replaces evaluating the nest of every cell on every tick.

use crate::names;
use crate::number;
use crate::text;
use crate::types;
use crate::types::{Assignment, AssignmentModel, CalcKind, CalcOp, Expr, ExprModel};
use std::collections::HashMap;
use vstd::hash_set::StringHashSet;
use vstd::prelude::*;

verus! {

broadcast use vstd::std_specs::hash::group_hash_axioms;

/// One write port through a single slot: while its gate is set, the value goes
/// to the address, as one byte or as two.
#[derive(Debug)]
pub struct PackedSlotPort {
    /// Gate property; the port is idle while it is 0.
    pub gate_property: String,
    /// Property that holds the byte address being written.
    pub addr_property: String,
    /// Property that holds the byte or word to write.
    pub val_property: String,
    /// Property that holds the width: 1 for a byte, 2 for a word.
    pub width_property: String,
    /// Map from a cell's byte address to its property.
    pub address_map: HashMap<i64, String>,
    /// Bytes per cell.
    pub pack: u8,
}

/// Result of the recognition.
pub struct PackedBroadcastResult {
    /// The ports, in dictionary order of gate and address property.
    pub ports: Vec<PackedSlotPort>,
    /// Cell properties that the ports cover.
    pub absorbed_properties: StringHashSet,
    /// Bytes per cell.
    pub pack: u8,
}

/// Fewest cells that count as the pattern.
pub const MIN_CELLS_FOR_RECOGNITION: usize = 100;

/// Bytes per cell.
pub const PACK_SIZE: u8 = 2;

// ---------------------------------------------------------------------------
// Shapes
// ---------------------------------------------------------------------------

/// The number in a property name `--mc<number>`.
pub open spec fn cell_index(property: Seq<char>) -> Option<int> {
    if !text::starts_with(property, "--mc"@) || property.len() == 4 {
        None
    } else {
        let rest = text::dropped(property, 4);
        let digits = if rest[0] == '+' {
            text::dropped(rest, 1)
        } else {
            rest
        };
        if digits.len() > 0 && text::all_digits(digits) && text::decimal_value(digits) <= u32::MAX {
            Some(text::decimal_value(digits))
        } else {
            None
        }
    }
}

/// The value of an expression made of literals and `+ - * /` alone. Sums and
/// products wrap; division truncates, and a quotient that does not exist is no
/// value.
pub open spec fn const_value(e: ExprModel) -> Option<i64>
    decreases e,
{
    match e {
        ExprModel::Number(bits) => Some(number::as_i64(bits)),
        ExprModel::Calc(kind, parts) => if parts.len() == 2 {
            match (const_value(parts[0]), const_value(parts[1])) {
                (Some(a), Some(b)) => match kind {
                    CalcKind::Add => Some(a.wrapping_add(b)),
                    CalcKind::Sub => Some(a.wrapping_sub(b)),
                    CalcKind::Mul => Some(a.wrapping_mul(b)),
                    CalcKind::Div => a.checked_div(b),
                    _ => None,
                },
                _ => None,
            }
        } else {
            None
        },
        _ => None,
    }
}

/// The constant that an expression adds to `var(addr)`, if it is such a sum.
pub open spec fn offset_from(e: ExprModel, addr: Seq<char>) -> Option<i64>
    decreases e,
{
    match e {
        ExprModel::Var(name, _) => if name == addr {
            Some(0)
        } else {
            None
        },
        ExprModel::Calc(kind, parts) => if parts.len() == 2 {
            match kind {
                CalcKind::Add => match (offset_from(parts[0], addr), offset_from(parts[1], addr)) {
                    (Some(a), _) => match const_value(parts[1]) {
                        Some(b) => Some(a.wrapping_add(b)),
                        None => None,
                    },
                    (None, Some(b)) => match const_value(parts[0]) {
                        Some(a) => Some(a.wrapping_add(b)),
                        None => None,
                    },
                    _ => None,
                },
                CalcKind::Sub => match (offset_from(parts[0], addr), const_value(parts[1])) {
                    (Some(a), Some(b)) => Some(a.wrapping_sub(b)),
                    _ => None,
                },
                _ => None,
            }
        } else {
            None
        },
        _ => None,
    }
}

/// Address property and constant of `calc(var(addr) - K)` with `K` not
/// negative; a bare `var(addr)` has `K` 0.
pub open spec fn low_offset(e: ExprModel) -> Option<(Seq<char>, i64)> {
    match e {
        ExprModel::Var(name, _) => Some((name, 0)),
        _ => match e.binary(CalcKind::Sub) {
            Some((left, right)) => match (left.var_name(), const_value(right)) {
                (Some(name), Some(k)) => if k >= 0 {
                    Some((name, k))
                } else {
                    None
                },
                _ => None,
            },
            None => None,
        },
    }
}

/// One slot of a chain.
#[verifier::ext_equal]
pub struct LayerModel {
    pub key: PortKey,
    /// Byte address of the cell, as the slot's offset arithmetic has it.
    pub base: i64,
}

/// What identifies a port: gate, address, value and width property.
#[verifier::ext_equal]
pub struct PortKey {
    pub gate: Seq<char>,
    pub addr: Seq<char>,
    pub val: Seq<char>,
    pub width: Seq<char>,
}

/// The slot that the arguments of one call describe.
pub open spec fn layer_of(args: Seq<ExprModel>) -> Option<LayerModel> {
    if args.len() != 6 {
        None
    } else {
        match (args[1].var_name(), args[4].var_name(), args[5].var_name(), low_offset(args[2])) {
            (Some(gate), Some(val), Some(width), Some((addr, base))) => if offset_from(
                args[3],
                addr,
            ) == Some((1 - base) as i64) {
                Some(LayerModel { key: PortKey { gate, addr, val, width }, base })
            } else {
                None
            },
            _ => None,
        }
    }
}

/// The slots of a chain, outermost first, and the variable innermost.
pub open spec fn chain(e: ExprModel) -> Option<(Seq<LayerModel>, Seq<char>)>
    decreases e,
{
    match e {
        ExprModel::Var(name, _) => Some((Seq::empty(), name)),
        ExprModel::Call(name, args) => if text::ends_with(name, "applySlot"@) && args.len() == 6 {
            match (layer_of(args), chain(args[0])) {
                (Some(layer), Some((inner, tail))) => Some((seq![layer] + inner, tail)),
                _ => None,
            }
        } else {
            None
        },
        _ => None,
    }
}

/// The slots through which a cell is written, if its assignment is such a
/// chain, with a slot at least, around the cell's own earlier value.
pub open spec fn layers_of(a: AssignmentModel) -> Option<Seq<LayerModel>> {
    match (cell_index(a.property), chain(a.value)) {
        (Some(_), Some((layers, tail))) => if layers.len() > 0 && names::keeps(
            tail,
            a.property,
        ) {
            Some(layers)
        } else {
            None
        },
        _ => None,
    }
}

// ---------------------------------------------------------------------------
// Ports
// ---------------------------------------------------------------------------

/// A port under construction.
#[verifier::ext_equal]
pub struct PortModel {
    pub key: PortKey,
    pub map: Map<i64, Seq<char>>,
    /// Distance from an address in the table to the byte address that the
    /// cell's name stands for; the same for every cell of the port.
    pub delta: i64,
    /// Whether two cells claimed the same address.
    pub clash: bool,
}

/// The port with the given key.
pub open spec fn port_index(ports: Seq<PortModel>, key: PortKey) -> Option<int>
    decreases ports.len(),
{
    if ports.len() == 0 {
        None
    } else if ports.last().key == key {
        Some(ports.len() - 1)
    } else {
        port_index(ports.drop_last(), key)
    }
}

/// Does a slot of a cell agree with the port it belongs to: the same distance,
/// and an address that is still free?
pub open spec fn layer_fits(ports: Seq<PortModel>, layer: LayerModel, name_addr: i64) -> bool {
    match port_index(ports, layer.key) {
        Some(i) => ports[i].delta == name_addr - layer.base && !ports[i].map.contains_key(
            layer.base,
        ),
        None => true,
    }
}

/// The ports with one more cell in the port of one slot.
pub open spec fn with_layer(
    ports: Seq<PortModel>,
    layer: LayerModel,
    property: Seq<char>,
    name_addr: i64,
) -> Seq<PortModel> {
    match port_index(ports, layer.key) {
        Some(i) => ports.update(
            i,
            PortModel {
                map: ports[i].map.insert(layer.base, property),
                clash: ports[i].clash || ports[i].map.contains_key(layer.base),
                ..ports[i]
            },
        ),
        None => ports.push(
            PortModel {
                key: layer.key,
                map: Map::empty().insert(layer.base, property),
                delta: (name_addr - layer.base) as i64,
                clash: false,
            },
        ),
    }
}

/// The ports with one more cell in the ports of all its slots.
pub open spec fn with_layers(
    ports: Seq<PortModel>,
    layers: Seq<LayerModel>,
    property: Seq<char>,
    name_addr: i64,
) -> Seq<PortModel>
    decreases layers.len(),
{
    if layers.len() == 0 {
        ports
    } else {
        with_layer(
            with_layers(ports, layers.drop_last(), property, name_addr),
            layers.last(),
            property,
            name_addr,
        )
    }
}

/// Ports and covered cells found so far.
#[verifier::ext_equal]
pub struct PackedModel {
    pub ports: Seq<PortModel>,
    pub absorbed: Set<Seq<char>>,
}

/// Byte address that a cell's name stands for.
pub open spec fn name_addr(property: Seq<char>) -> i64 {
    (cell_index(property)->0 * 2) as i64
}

/// What is found after one more assignment. A cell joins all its ports or none.
pub open spec fn packed_step(found: PackedModel, a: AssignmentModel) -> PackedModel {
    match layers_of(a) {
        Some(layers) => if forall|i: int|
            0 <= i < layers.len() ==> layer_fits(
                found.ports,
                #[trigger] layers[i],
                name_addr(a.property),
            ) {
            PackedModel {
                ports: with_layers(found.ports, layers, a.property, name_addr(a.property)),
                absorbed: found.absorbed.insert(a.property),
            }
        } else {
            found
        },
        None => found,
    }
}

/// What is found in a list of assignments.
pub open spec fn packed_found(assignments: Seq<AssignmentModel>) -> PackedModel
    decreases assignments.len(),
{
    if assignments.len() == 0 {
        PackedModel { ports: Seq::empty(), absorbed: Set::empty() }
    } else {
        packed_step(packed_found(assignments.drop_last()), assignments.last())
    }
}

/// Does the first port come before the second: by gate, and then by address
/// property?
pub open spec fn port_precedes(a: PortModel, b: PortModel) -> bool {
    text::precedes(a.key.gate, b.key.gate) || (a.key.gate == b.key.gate && text::precedes(
        a.key.addr,
        b.key.addr,
    ))
}

/// Where a port belongs in an ordered list: before the first one that it
/// precedes.
pub open spec fn port_place(sorted: Seq<PortModel>, p: PortModel) -> int
    decreases sorted.len(),
{
    if sorted.len() == 0 {
        0
    } else if port_precedes(p, sorted.last()) {
        port_place(sorted.drop_last(), p)
    } else {
        sorted.len() as int
    }
}

/// The ports in order.
pub open spec fn ports_sorted(ports: Seq<PortModel>) -> Seq<PortModel>
    decreases ports.len(),
{
    if ports.len() == 0 {
        Seq::empty()
    } else {
        let rest = ports_sorted(ports.drop_last());
        rest.insert(port_place(rest, ports.last()), ports.last())
    }
}

/// What the recogniser reports: nothing unless enough cells were found and every
/// port is free of clashes.
pub open spec fn packed_result(assignments: Seq<AssignmentModel>) -> PackedModel {
    let found = packed_found(assignments);
    if found.absorbed.len() < MIN_CELLS_FOR_RECOGNITION || exists|i: int|
        0 <= i < found.ports.len() && (#[trigger] found.ports[i]).clash {
        PackedModel { ports: Seq::empty(), absorbed: Set::empty() }
    } else {
        PackedModel { ports: ports_sorted(found.ports), absorbed: found.absorbed }
    }
}

// ---------------------------------------------------------------------------
// Code
// ---------------------------------------------------------------------------

/// The number in a property name `--mc<number>`.
pub fn parse_packed_cell_index(property: &str) -> (r: Option<u32>)
    ensures
        match r {
            Some(n) => cell_index(property@) == Some(n as int),
            None => cell_index(property@) is None,
        },
{
    if !text::begins(property, "--mc") {
        return None;
    }
    proof {
        reveal_strlit("--mc");
    }
    let chars = text::chars_of(property);
    if chars.len() == 4 {
        return None;
    }
    let from: usize = if chars[4] == '+' {
        5
    } else {
        4
    };
    assert(text::dropped(text::dropped(property@, 4), 1) =~= text::dropped(property@, 5));
    match text::parse_decimal(&chars, from, chars.len(), u32::MAX as u64) {
        Some(v) => Some(v as u32),
        None => None,
    }
}

fn const_eval(e: &Expr) -> (r: Option<i64>)
    ensures
        r == const_value(e.view()),
    decreases e,
{
    proof {
        types::lemma_calc(e);
    }
    match e {
        Expr::Literal(v) => Some(v.to_i64()),
        Expr::Calc(op) => {
            let (a, b) = match op {
                CalcOp::Add(a, b) => (a, b),
                CalcOp::Sub(a, b) => (a, b),
                CalcOp::Mul(a, b) => (a, b),
                CalcOp::Div(a, b) => (a, b),
                _ => {
                    return None;
                },
            };
            match (const_eval(a), const_eval(b)) {
                (Some(x), Some(y)) => match op {
                    CalcOp::Add(..) => Some(x.wrapping_add(y)),
                    CalcOp::Sub(..) => Some(x.wrapping_sub(y)),
                    CalcOp::Mul(..) => Some(x.wrapping_mul(y)),
                    CalcOp::Div(..) => x.checked_div(y),
                    _ => None,
                },
                _ => None,
            }
        },
        _ => None,
    }
}

fn eval_addr_offset(e: &Expr, addr: &String) -> (r: Option<i64>)
    ensures
        r == offset_from(e.view(), addr@),
    decreases e,
{
    proof {
        types::lemma_calc(e);
    }
    match e {
        Expr::Var { name, fallback: _ } => {
            if *name == *addr {
                Some(0)
            } else {
                None
            }
        },
        Expr::Calc(CalcOp::Add(a, b)) => {
            match eval_addr_offset(a, addr) {
                Some(x) => match const_eval(b) {
                    Some(y) => Some(x.wrapping_add(y)),
                    None => None,
                },
                None => match eval_addr_offset(b, addr) {
                    Some(y) => match const_eval(a) {
                        Some(x) => Some(x.wrapping_add(y)),
                        None => None,
                    },
                    None => None,
                },
            }
        },
        Expr::Calc(CalcOp::Sub(a, b)) => {
            match eval_addr_offset(a, addr) {
                Some(x) => match const_eval(b) {
                    Some(y) => Some(x.wrapping_sub(y)),
                    None => None,
                },
                None => None,
            }
        },
        _ => None,
    }
}

/// Is `e` the sum of `var(addr)` and exactly `target`?
fn matches_addr_plus_const(e: &Expr, addr: &String, target: i64) -> (r: bool)
    ensures
        r == (offset_from(e.view(), addr@) == Some(target)),
{
    match eval_addr_offset(e, addr) {
        Some(c) => c == target,
        None => false,
    }
}

/// Is `e` the sum of `var(addr)` and `1 - base`?
fn hi_off_matches(e: &Expr, addr: &String, base: i64) -> (r: bool)
    requires
        base >= 0,
    ensures
        r == (offset_from(e.view(), addr@) == Some((1 - base) as i64)),
{
    matches_addr_plus_const(e, addr, 1 - base)
}

fn parse_byte_off_arg(e: &Expr) -> (r: Option<(String, i64)>)
    ensures
        match r {
            Some((name, k)) => low_offset(e.view()) == Some((name@, k)) && k >= 0,
            None => low_offset(e.view()) is None,
        },
{
    proof {
        types::lemma_calc(e);
    }
    match e {
        Expr::Calc(CalcOp::Sub(left, right)) => {
            let name: String = match &**left {
                Expr::Var { name, fallback: _ } => name.clone(),
                _ => {
                    return None;
                },
            };
            match const_eval(right) {
                Some(k) => {
                    if k < 0 {
                        None
                    } else {
                        Some((name, k))
                    }
                },
                None => None,
            }
        },
        Expr::Var { name, fallback: _ } => Some((name.clone(), 0)),
        _ => None,
    }
}

/// One slot of a chain.
struct ApplySlotLayer {
    gate_property: String,
    addr_property: String,
    val_property: String,
    width_property: String,
    cell_byte_addr: i64,
}

impl ApplySlotLayer {
    spec fn view(&self) -> LayerModel {
        LayerModel {
            key: PortKey {
                gate: self.gate_property@,
                addr: self.addr_property@,
                val: self.val_property@,
                width: self.width_property@,
            },
            base: self.cell_byte_addr,
        }
    }
}

fn var_name(e: &Expr) -> (r: Option<String>)
    ensures
        match r {
            Some(n) => e.view().var_name() == Some(n@),
            None => e.view().var_name() is None,
        },
{
    match e {
        Expr::Var { name, fallback: _ } => Some(name.clone()),
        _ => None,
    }
}

fn extract_apply_slot_layer(args: &Vec<Expr>) -> (r: Option<ApplySlotLayer>)
    requires
        args@.len() == 6,
    ensures
        match r {
            Some(l) => layer_of(types::exprs_view(args@)) == Some(l.view()) && l.cell_byte_addr
                >= 0,
            None => layer_of(types::exprs_view(args@)) is None,
        },
{
    let ghost m = types::exprs_view(args@);
    assert(m[1] == args@[1].view() && m[2] == args@[2].view() && m[3] == args@[3].view() && m[4]
        == args@[4].view() && m[5] == args@[5].view());
    let gate_property: String = match var_name(&args[1]) {
        Some(n) => n,
        None => {
            return None;
        },
    };
    let val_property: String = match var_name(&args[4]) {
        Some(n) => n,
        None => {
            return None;
        },
    };
    let width_property: String = match var_name(&args[5]) {
        Some(n) => n,
        None => {
            return None;
        },
    };
    let (addr_property, cell_byte_addr): (String, i64) = match parse_byte_off_arg(&args[2]) {
        Some(p) => p,
        None => {
            return None;
        },
    };
    if !hi_off_matches(&args[3], &addr_property, cell_byte_addr) {
        return None;
    }
    Some(
        ApplySlotLayer {
            gate_property,
            addr_property,
            val_property,
            width_property,
            cell_byte_addr,
        },
    )
}

spec fn layers_view(v: Seq<ApplySlotLayer>) -> Seq<LayerModel> {
    Seq::new(v.len(), |i: int| v[i].view())
}

fn decompose_apply_slot_chain(e: &Expr, cell_property: &String) -> (r: Option<Vec<ApplySlotLayer>>)
    ensures
        match r {
            Some(v) => chain(e.view()) is Some && names::keeps(
                (chain(e.view())->0).1,
                cell_property@,
            ) && v@.len() > 0 && layers_view(v@) == (chain(e.view())->0).0 && forall|i: int|
                0 <= i < v@.len() ==> (#[trigger] v@[i]).cell_byte_addr >= 0,
            None => chain(e.view()) is None || (chain(e.view())->0).0.len() == 0 || !names::keeps(
                (chain(e.view())->0).1,
                cell_property@,
            ),
        },
{
    let mut layers: Vec<ApplySlotLayer> = Vec::new();
    let mut cur: &Expr = e;
    assert(layers_view(layers@) =~= Seq::<LayerModel>::empty());
    proof {
        if let Some((l, t)) = chain(e.view()) {
            assert(layers_view(layers@) + l =~= l);
        }
    }
    loop
        invariant
            chain(e.view()) == (match chain(cur.view()) {
                Some((l, t)) => Some((layers_view(layers@) + l, t)),
                None => None,
            }),
            forall|i: int| 0 <= i < layers@.len() ==> (#[trigger] layers@[i]).cell_byte_addr >= 0,
        decreases cur,
    {
        match cur {
            Expr::FunctionCall { name, args } => {
                if !text::finishes(name.as_str(), "applySlot") || args.len() != 6 {
                    return None;
                }
                let layer: ApplySlotLayer = match extract_apply_slot_layer(args) {
                    Some(l) => l,
                    None => {
                        return None;
                    },
                };
                let ghost before = layers_view(layers@);
                layers.push(layer);
                proof {
                    let inner = args@[0].view();
                    assert(types::exprs_view(args@)[0] == inner);
                    assert(layers_view(layers@) =~= before.push(layer.view()));
                    if let Some((l, t)) = chain(inner) {
                        assert(before + (seq![layer.view()] + l) =~= layers_view(layers@) + l);
                    }
                }
                cur = &args[0];
            },
            Expr::Var { name, fallback: _ } => {
                assert(layers_view(layers@) + Seq::<LayerModel>::empty() =~= layers_view(layers@));
                if layers.len() > 0 && names::keeps_property(
                    name.as_str(),
                    cell_property.as_str(),
                ) {
                    return Some(layers);
                }
                return None;
            },
            _ => {
                return None;
            },
        }
    }
}

/// A port under construction.
struct PortBuild {
    port: PackedSlotPort,
    delta: i64,
    clash: bool,
}

impl PackedSlotPort {
    /// What identifies the port.
    pub open spec fn key(&self) -> PortKey {
        PortKey {
            gate: self.gate_property@,
            addr: self.addr_property@,
            val: self.val_property@,
            width: self.width_property@,
        }
    }

    /// The table from addresses to cells.
    pub open spec fn map(&self) -> Map<i64, Seq<char>> {
        self.address_map@.map_values(|s: String| s@)
    }
}

impl PortBuild {
    spec fn view(&self) -> PortModel {
        PortModel {
            key: self.port.key(),
            map: self.port.map(),
            delta: self.delta,
            clash: self.clash,
        }
    }
}

spec fn builds_view(v: Seq<PortBuild>) -> Seq<PortModel> {
    Seq::new(v.len(), |i: int| v[i].view())
}

proof fn lemma_port_index(ports: Seq<PortModel>, key: PortKey)
    ensures
        match port_index(ports, key) {
            Some(i) => 0 <= i < ports.len() && ports[i].key == key,
            None => true,
        },
    decreases ports.len(),
{
    if ports.len() > 0 {
        lemma_port_index(ports.drop_last(), key);
    }
}

fn find_port(ports: &Vec<PortBuild>, layer: &ApplySlotLayer) -> (r: Option<usize>)
    ensures
        match r {
            Some(i) => port_index(builds_view(ports@), layer.view().key) == Some(i as int) && i
                < ports@.len(),
            None => port_index(builds_view(ports@), layer.view().key) is None,
        },
{
    let ghost all = builds_view(ports@);
    let ghost key = layer.view().key;
    let mut i: usize = ports.len();
    assert(all.subrange(0, i as int) =~= all);
    while i > 0
        invariant
            i <= ports@.len(),
            all == builds_view(ports@),
            key == layer.view().key,
            port_index(all, key) == port_index(all.subrange(0, i as int), key),
        decreases i,
    {
        let p: &PackedSlotPort = &ports[i - 1].port;
        assert(all[i - 1] == ports@[i - 1].view());
        if p.gate_property == layer.gate_property && p.addr_property == layer.addr_property
            && p.val_property == layer.val_property && p.width_property == layer.width_property {
            assert(all[i - 1].key =~= key);
            return Some(i - 1);
        }
        assert(all[i - 1].key != key);
        assert(all.subrange(0, i as int).drop_last() =~= all.subrange(0, i - 1));
        i -= 1;
    }
    None
}

fn add_layer(ports: &mut Vec<PortBuild>, layer: &ApplySlotLayer, property: &String, at: i64)
    requires
        0 <= at <= 0x2_0000_0000,
        layer.cell_byte_addr >= 0,
    ensures
        builds_view(final(ports)@) == with_layer(
            builds_view(old(ports)@),
            layer.view(),
            property@,
            at,
        ),
{
    let ghost before = builds_view(ports@);
    let base: i64 = layer.cell_byte_addr;
    match find_port(ports, layer) {
        Some(i) => {
            let ghost was = ports@[i as int].view();
            if ports[i].port.address_map.contains_key(&base) {
                ports[i].clash = true;
            }
            ports[i].port.address_map.insert(base, property.clone());
            proof {
                assert(before[i as int] == was);
                assert(ports@[i as int].port.map() =~= was.map.insert(base, property@));
            }
            assert(builds_view(ports@) =~= with_layer(before, layer.view(), property@, at));
        },
        None => {
            let mut address_map: HashMap<i64, String> = HashMap::new();
            address_map.insert(base, property.clone());
            let b = PortBuild {
                port: PackedSlotPort {
                    gate_property: layer.gate_property.clone(),
                    addr_property: layer.addr_property.clone(),
                    val_property: layer.val_property.clone(),
                    width_property: layer.width_property.clone(),
                    address_map,
                    pack: PACK_SIZE,
                },
                delta: at - base,
                clash: false,
            };
            proof {
                assert(b.port.map() =~= Map::<i64, Seq<char>>::empty().insert(base, property@));
            }
            ports.push(b);
            assert(builds_view(ports@) =~= with_layer(before, layer.view(), property@, at));
        },
    }
}

fn add_layers(
    ports: &mut Vec<PortBuild>,
    layers: &Vec<ApplySlotLayer>,
    property: &String,
    at: i64,
)
    requires
        0 <= at <= 0x2_0000_0000,
        forall|i: int| 0 <= i < layers@.len() ==> (#[trigger] layers@[i]).cell_byte_addr >= 0,
    ensures
        builds_view(final(ports)@) == with_layers(
            builds_view(old(ports)@),
            layers_view(layers@),
            property@,
            at,
        ),
{
    let ghost all = layers_view(layers@);
    let mut i: usize = 0;
    assert(all.subrange(0, 0) =~= Seq::<LayerModel>::empty());
    while i < layers.len()
        invariant
            i <= layers@.len(),
            0 <= at <= 0x2_0000_0000,
            all == layers_view(layers@),
            forall|j: int| 0 <= j < layers@.len() ==> (#[trigger] layers@[j]).cell_byte_addr >= 0,
            builds_view(ports@) == with_layers(
                builds_view(old(ports)@),
                all.subrange(0, i as int),
                property@,
                at,
            ),
        decreases layers@.len() - i,
    {
        assert(layers@[i as int].cell_byte_addr >= 0);
        add_layer(ports, &layers[i], property, at);
        assert(all.subrange(0, i + 1).drop_last() =~= all.subrange(0, i as int));
        i += 1;
    }
    assert(all.subrange(0, i as int) =~= all);
}

fn layers_fit(ports: &Vec<PortBuild>, layers: &Vec<ApplySlotLayer>, at: i64) -> (r: bool)
    requires
        0 <= at <= 0x2_0000_0000,
        forall|i: int| 0 <= i < layers@.len() ==> (#[trigger] layers@[i]).cell_byte_addr >= 0,
    ensures
        r == forall|i: int|
            0 <= i < layers@.len() ==> layer_fits(
                builds_view(ports@),
                #[trigger] layers_view(layers@)[i],
                at,
            ),
{
    let ghost all = layers_view(layers@);
    let mut i: usize = 0;
    while i < layers.len()
        invariant
            i <= layers@.len(),
            0 <= at <= 0x2_0000_0000,
            all == layers_view(layers@),
            forall|j: int| 0 <= j < layers@.len() ==> (#[trigger] layers@[j]).cell_byte_addr >= 0,
            forall|j: int| 0 <= j < i ==> layer_fits(builds_view(ports@), #[trigger] all[j], at),
        decreases layers@.len() - i,
    {
        let base: i64 = layers[i].cell_byte_addr;
        assert(layers@[i as int].cell_byte_addr >= 0);
        assert(all[i as int] == layers@[i as int].view());
        match find_port(ports, &layers[i]) {
            Some(p) => {
                assert(builds_view(ports@)[p as int] == ports@[p as int].view());
                if ports[p].delta != at - base || ports[p].port.address_map.contains_key(&base) {
                    assert(!layer_fits(builds_view(ports@), all[i as int], at));
                    return false;
                }
            },
            None => {},
        }
        i += 1;
    }
    true
}

fn place_of(sorted: &Vec<PortBuild>, b: &PortBuild) -> (r: usize)
    ensures
        r == port_place(builds_view(sorted@), b.view()),
        r <= sorted@.len(),
{
    let ghost all = builds_view(sorted@);
    let mut i: usize = sorted.len();
    assert(all.subrange(0, i as int) =~= all);
    while i > 0
        invariant
            i <= sorted@.len(),
            all == builds_view(sorted@),
            port_place(all, b.view()) == port_place(all.subrange(0, i as int), b.view()),
        decreases i,
    {
        let s: &PackedSlotPort = &sorted[i - 1].port;
        assert(all[i - 1] == sorted@[i - 1].view());
        let p: &PackedSlotPort = &b.port;
        let before = text::comes_before(p.gate_property.as_str(), s.gate_property.as_str()) || (
        p.gate_property == s.gate_property && text::comes_before(
            p.addr_property.as_str(),
            s.addr_property.as_str(),
        ));
        if !before {
            return i;
        }
        assert(all.subrange(0, i as int).drop_last() =~= all.subrange(0, i - 1));
        i -= 1;
    }
    i
}

fn sort_ports(ports: Vec<PortBuild>) -> (r: Vec<PortBuild>)
    ensures
        builds_view(r@) == ports_sorted(builds_view(ports@)),
{
    let ghost all = builds_view(ports@);
    let mut sorted: Vec<PortBuild> = Vec::new();
    assert(all.subrange(0, 0) =~= Seq::<PortModel>::empty());
    assert(builds_view(sorted@) =~= Seq::<PortModel>::empty());
    for b in it: ports
        invariant
            it.seq() == ports@,
            all == builds_view(ports@),
            builds_view(sorted@) == ports_sorted(all.subrange(0, it.index() as int)),
    {
        let ghost n = it.index() as int;
        let ghost before = builds_view(sorted@);
        let at: usize = place_of(&sorted, &b);
        sorted.insert(at, b);
        proof {
            assert(b == ports@[n]);
            assert(all.subrange(0, n + 1).drop_last() =~= all.subrange(0, n));
            assert(all.subrange(0, n + 1).last() == b.view());
            assert(builds_view(sorted@) =~= before.insert(at as int, b.view()));
        }
    }
    assert(all.subrange(0, all.len() as int) =~= all);
    sorted
}

fn nothing_found() -> (r: PackedBroadcastResult)
    ensures
        r.ports@.len() == 0,
        r.absorbed_properties@ == Set::<Seq<char>>::empty(),
        r.pack == PACK_SIZE,
{
    PackedBroadcastResult {
        ports: Vec::new(),
        absorbed_properties: StringHashSet::new(),
        pack: PACK_SIZE,
    }
}

/// Does a list of ports have the given keys and tables?
pub open spec fn ports_match(ports: Seq<PackedSlotPort>, model: Seq<PortModel>) -> bool {
    &&& ports.len() == model.len()
    &&& forall|i: int|
        0 <= i < ports.len() ==> (#[trigger] ports[i]).key() == model[i].key && ports[i].map()
            == model[i].map && ports[i].pack == PACK_SIZE
}

/// Recognises cells that are written through chains of slots, and the ports
/// that write them. Fewer than a hundred cells, or two cells of one port at the
/// same address, and nothing is reported.
pub fn recognise_packed_broadcast(assignments: &[Assignment]) -> (r: PackedBroadcastResult)
    ensures
        ports_match(r.ports@, packed_result(types::assignments_view(assignments@)).ports),
        r.absorbed_properties@ == packed_result(types::assignments_view(assignments@)).absorbed,
        r.pack == PACK_SIZE,
{
    let ghost all = types::assignments_view(assignments@);
    let mut ports: Vec<PortBuild> = Vec::new();
    let mut absorbed: StringHashSet = StringHashSet::new();
    let mut i: usize = 0;
    assert(all.subrange(0, 0) =~= Seq::<AssignmentModel>::empty());
    assert(builds_view(ports@) =~= Seq::<PortModel>::empty());
    while i < assignments.len()
        invariant
            i <= assignments@.len(),
            all == types::assignments_view(assignments@),
            builds_view(ports@) == packed_found(all.subrange(0, i as int)).ports,
            absorbed@ == packed_found(all.subrange(0, i as int)).absorbed,
        decreases assignments@.len() - i,
    {
        let a: &Assignment = &assignments[i];
        proof {
            assert(all.subrange(0, i + 1).drop_last() =~= all.subrange(0, i as int));
            assert(all.subrange(0, i + 1).last() == a.view());
            assert(all[i as int] == a.view());
        }
        i += 1;
        let index: u32 = match parse_packed_cell_index(a.property.as_str()) {
            Some(n) => n,
            None => {
                continue ;
            },
        };
        let at: i64 = index as i64 * 2;
        let layers: Vec<ApplySlotLayer> = match decompose_apply_slot_chain(&a.value, &a.property) {
            Some(l) => l,
            None => {
                continue ;
            },
        };
        let ghost found = layers_view(layers@);
        assert(layers_of(a.view()) == Some(found));
        let fit: bool = layers_fit(&ports, &layers, at);
        assert(fit == forall|k: int|
            0 <= k < found.len() ==> layer_fits(builds_view(ports@), #[trigger] found[k], at));
        if !fit {
            continue ;
        }
        add_layers(&mut ports, &layers, &a.property, at);
        absorbed.insert(a.property.clone());
    }
    assert(all.subrange(0, i as int) =~= all);
    let ghost found = packed_found(all);
    if absorbed.len() < MIN_CELLS_FOR_RECOGNITION {
        return nothing_found();
    }
    let mut k: usize = 0;
    while k < ports.len()
        invariant
            k <= ports@.len(),
            all == types::assignments_view(assignments@),
            found == packed_found(all),
            builds_view(ports@) == found.ports,
            forall|j: int| 0 <= j < k ==> !(#[trigger] found.ports[j]).clash,
        decreases ports@.len() - k,
    {
        assert(found.ports[k as int] == ports@[k as int].view());
        if ports[k].clash {
            return nothing_found();
        }
        k += 1;
    }
    let sorted: Vec<PortBuild> = sort_ports(ports);
    let ghost order = builds_view(sorted@);
    let mut out: Vec<PackedSlotPort> = Vec::new();
    for b in it: sorted
        invariant
            it.seq() == sorted@,
            order == builds_view(sorted@),
            out@.len() == it.index(),
            forall|j: int|
                0 <= j < out@.len() ==> (#[trigger] out@[j]).key() == order[j].key && out@[j].map()
                    == order[j].map && out@[j].pack == PACK_SIZE,
    {
        let mut port: PackedSlotPort = b.port;
        port.pack = PACK_SIZE;
        out.push(port);
    }
    PackedBroadcastResult { ports: out, absorbed_properties: absorbed, pack: PACK_SIZE }
}

// ---------------------------------------------------------------------------
// Laws
// ---------------------------------------------------------------------------

/// Some port writes `property` at the slot's address.
pub open spec fn covers(ports: Seq<PortModel>, layer: LayerModel, property: Seq<char>) -> bool {
    exists|i: int|
        0 <= i < ports.len() && (#[trigger] ports[i]).key == layer.key && ports[i].map.contains_key(
            layer.base,
        ) && ports[i].map[layer.base] == property
}

/// Does the port write `property` at the address?
pub open spec fn writes_at(port: PortModel, at: i64, property: Seq<char>) -> bool {
    port.map.contains_key(at) && port.map[at] == property
}

/// Do the ports write nothing but the given properties?
pub open spec fn only_absorbed(ports: Seq<PortModel>, absorbed: Set<Seq<char>>) -> bool {
    forall|i: int, at: i64|
        0 <= i < ports.len() && #[trigger] ports[i].map.contains_key(at) ==> absorbed.contains(
            ports[i].map[at],
        )
}

/// No port has a clash.
pub open spec fn clash_free(ports: Seq<PortModel>) -> bool {
    forall|i: int| 0 <= i < ports.len() ==> !(#[trigger] ports[i]).clash
}

proof fn lemma_with_layer(
    ports: Seq<PortModel>,
    layer: LayerModel,
    property: Seq<char>,
    at: i64,
    kept: LayerModel,
    owner: Seq<char>,
)
    requires
        clash_free(with_layer(ports, layer, property, at)),
    ensures
        clash_free(ports),
        covers(with_layer(ports, layer, property, at), layer, property),
        covers(ports, kept, owner) ==> covers(
            with_layer(ports, layer, property, at),
            kept,
            owner,
        ),
{
    let after = with_layer(ports, layer, property, at);
    lemma_port_index(ports, layer.key);
    match port_index(ports, layer.key) {
        Some(k) => {
            assert(after[k].key == layer.key);
            assert(!after[k].clash);
            assert forall|i: int| 0 <= i < ports.len() implies !(#[trigger] ports[i]).clash by {
                assert(!after[i].clash);
            }
            if covers(ports, kept, owner) {
                let i = choose|i: int|
                    0 <= i < ports.len() && (#[trigger] ports[i]).key == kept.key
                        && ports[i].map.contains_key(kept.base) && ports[i].map[kept.base] == owner;
                assert(after[i].key == kept.key);
                if i == k {
                    assert(kept.base != layer.base);
                }
            }
        },
        None => {
            let n = ports.len() as int;
            assert(after[n].key == layer.key);
            assert forall|i: int| 0 <= i < ports.len() implies !(#[trigger] ports[i]).clash by {
                assert(!after[i].clash);
            }
            if covers(ports, kept, owner) {
                let i = choose|i: int|
                    0 <= i < ports.len() && (#[trigger] ports[i]).key == kept.key
                        && ports[i].map.contains_key(kept.base) && ports[i].map[kept.base] == owner;
                assert(after[i] == ports[i]);
            }
        },
    }
}

proof fn lemma_with_layers(
    ports: Seq<PortModel>,
    layers: Seq<LayerModel>,
    property: Seq<char>,
    at: i64,
    kept: LayerModel,
    owner: Seq<char>,
)
    requires
        clash_free(with_layers(ports, layers, property, at)),
    ensures
        clash_free(ports),
        forall|i: int|
            0 <= i < layers.len() ==> covers(
                with_layers(ports, layers, property, at),
                #[trigger] layers[i],
                property,
            ),
        covers(ports, kept, owner) ==> covers(
            with_layers(ports, layers, property, at),
            kept,
            owner,
        ),
    decreases layers.len(),
{
    if layers.len() > 0 {
        let rest = layers.drop_last();
        let before = with_layers(ports, rest, property, at);
        lemma_with_layer(before, layers.last(), property, at, kept, owner);
        lemma_with_layers(ports, rest, property, at, kept, owner);
        assert forall|i: int| 0 <= i < layers.len() implies covers(
            with_layers(ports, layers, property, at),
            #[trigger] layers[i],
            property,
        ) by {
            if i < rest.len() {
                assert(rest[i] == layers[i]);
                lemma_with_layer(before, layers.last(), property, at, layers[i], property);
            }
        }
    }
}

/// The ports cover the assignment: each of its slots finds the cell.
pub open spec fn covered(ports: Seq<PortModel>, a: AssignmentModel) -> bool {
    &&& layers_of(a) is Some
    &&& forall|i: int|
        0 <= i < layers_of(a)->0.len() ==> covers(ports, #[trigger] layers_of(a)->0[i], a.property)
}

proof fn lemma_found_covers(assignments: Seq<AssignmentModel>, property: Seq<char>)
    requires
        clash_free(packed_found(assignments).ports),
        packed_found(assignments).absorbed.contains(property),
    ensures
        exists|k: int|
            0 <= k < assignments.len() && (#[trigger] assignments[k]).property == property
                && covered(packed_found(assignments).ports, assignments[k]),
    decreases assignments.len(),
{
    if assignments.len() > 0 {
        let rest = assignments.drop_last();
        let a = assignments.last();
        let before = packed_found(rest);
        let after = packed_found(assignments);
        let n = assignments.len() - 1;
        if after.ports == before.ports && after.absorbed == before.absorbed && before.absorbed.contains(
            property,
        ) {
            lemma_found_covers(rest, property);
            let k = choose|k: int|
                0 <= k < rest.len() && (#[trigger] rest[k]).property == property && covered(
                    before.ports,
                    rest[k],
                );
            assert(assignments[k] == rest[k]);
        } else {
            let layers = layers_of(a)->0;
            let at = name_addr(a.property);
            let dummy = LayerModel {
                key: PortKey {
                    gate: Seq::empty(),
                    addr: Seq::empty(),
                    val: Seq::empty(),
                    width: Seq::empty(),
                },
                base: 0,
            };
            assert(after.ports == with_layers(before.ports, layers, a.property, at));
            lemma_with_layers(before.ports, layers, a.property, at, dummy, Seq::empty());
            if property == a.property {
                assert(assignments[n].property == property);
                assert(covered(after.ports, assignments[n]));
            } else {
                assert(before.absorbed.contains(property));
                lemma_found_covers(rest, property);
                let k = choose|k: int|
                    0 <= k < rest.len() && (#[trigger] rest[k]).property == property && covered(
                        before.ports,
                        rest[k],
                    );
                assert(assignments[k] == rest[k]);
                assert forall|i: int| 0 <= i < layers_of(rest[k])->0.len() implies covers(
                    after.ports,
                    #[trigger] layers_of(rest[k])->0[i],
                    property,
                ) by {
                    lemma_with_layers(
                        before.ports,
                        layers,
                        a.property,
                        at,
                        layers_of(rest[k])->0[i],
                        property,
                    );
                }
            }
        }
    }
}

proof fn lemma_sorted_keeps(ports: Seq<PortModel>, p: PortModel)
    ensures
        ports_sorted(ports).len() == ports.len(),
        ports.contains(p) ==> ports_sorted(ports).contains(p),
        ports_sorted(ports).to_multiset() == ports.to_multiset(),
    decreases ports.len(),
{
    broadcast use vstd::seq_lib::group_to_multiset_ensures;

    if ports.len() > 0 {
        let front = ports.drop_last();
        let last = ports.last();
        let rest = ports_sorted(front);
        lemma_sorted_keeps(front, p);
        lemma_place(rest, last);
        let at = port_place(rest, last);
        let after = rest.insert(at, last);
        assert(after[at] == last);
        if ports.contains(p) {
            let i = choose|i: int| 0 <= i < ports.len() && ports[i] == p;
            if i < front.len() {
                assert(front[i] == p);
                let j = choose|j: int| 0 <= j < rest.len() && rest[j] == p;
                assert(after[if j < at {
                    j
                } else {
                    j + 1
                }] == p);
            }
        }
        assert(after.to_multiset() =~= rest.to_multiset().insert(last)) by {
            vstd::seq_lib::to_multiset_insert(rest, at, last);
        }
        assert(front.push(last) =~= ports);
        assert(ports.to_multiset() =~= front.to_multiset().insert(last));
    } else {
        assert(ports =~= Seq::<PortModel>::empty());
    }
}

proof fn lemma_place(sorted: Seq<PortModel>, p: PortModel)
    ensures
        0 <= port_place(sorted, p) <= sorted.len(),
        forall|i: int|
            port_place(sorted, p) <= i < sorted.len() ==> port_precedes(p, #[trigger] sorted[i]),
        port_place(sorted, p) > 0 ==> !port_precedes(p, sorted[port_place(sorted, p) - 1]),
    decreases sorted.len(),
{
    if sorted.len() > 0 && port_precedes(p, sorted.last()) {
        let rest = sorted.drop_last();
        lemma_place(rest, p);
        assert forall|i: int| port_place(sorted, p) <= i < sorted.len() implies port_precedes(
            p,
            #[trigger] sorted[i],
        ) by {
            if i < rest.len() {
                assert(rest[i] == sorted[i]);
            }
        }
    }
}

proof fn lemma_port_order(a: PortModel, b: PortModel, c: PortModel)
    ensures
        !(port_precedes(a, b) && port_precedes(b, a)),
        !port_precedes(b, a) && !port_precedes(c, b) ==> !port_precedes(c, a),
{
    text::lemma_precedes_total(a.key.gate, b.key.gate);
    text::lemma_precedes_total(b.key.gate, c.key.gate);
    text::lemma_precedes_total(a.key.gate, c.key.gate);
    text::lemma_precedes_total(a.key.addr, b.key.addr);
    text::lemma_precedes_total(b.key.addr, c.key.addr);
    text::lemma_precedes_total(a.key.addr, c.key.addr);
    if text::precedes(a.key.gate, b.key.gate) && text::precedes(b.key.gate, c.key.gate) {
        text::lemma_precedes_transitive(a.key.gate, b.key.gate, c.key.gate);
    }
    if text::precedes(a.key.addr, b.key.addr) && text::precedes(b.key.addr, c.key.addr) {
        text::lemma_precedes_transitive(a.key.addr, b.key.addr, c.key.addr);
    }
}

/// No port of an ordered list comes before an earlier one.
pub open spec fn in_order(ports: Seq<PortModel>) -> bool {
    forall|i: int, j: int|
        0 <= i < j < ports.len() ==> !port_precedes(#[trigger] ports[j], #[trigger] ports[i])
}

/// The reported ports are in order of gate and address property, and they are
/// the ports that were found, each once.
pub proof fn law_ports_are_ordered(ports: Seq<PortModel>)
    ensures
        in_order(ports_sorted(ports)),
        ports_sorted(ports).to_multiset() == ports.to_multiset(),
    decreases ports.len(),
{
    if ports.len() > 0 {
        lemma_sorted_keeps(ports, ports[0]);
        let rest = ports_sorted(ports.drop_last());
        let p = ports.last();
        law_ports_are_ordered(ports.drop_last());
        lemma_place(rest, p);
        let at = port_place(rest, p);
        let after = rest.insert(at, p);
        assert forall|i: int, j: int| 0 <= i < j < after.len() implies !port_precedes(
            #[trigger] after[j],
            #[trigger] after[i],
        ) by {
            let x = if i < at {
                i
            } else {
                i - 1
            };
            let y = if j < at {
                j
            } else {
                j - 1
            };
            if i == at {
                assert(port_precedes(p, rest[y]));
                lemma_port_order(p, rest[y], p);
            } else if j == at {
                if i < at - 1 {
                    assert(!port_precedes(rest[at - 1], rest[i]));
                    lemma_port_order(rest[i], rest[at - 1], p);
                }
            } else {
                assert(!port_precedes(rest[y], rest[x]));
            }
        }
    } else {
        lemma_sorted_keeps(ports, arbitrary());
    }
}

/// Whatever is absorbed is covered: for every absorbed cell there is an
/// assignment of it whose slots all find it, at the address that the slot's
/// arithmetic gives it. A cell is never absorbed in part, and there is always a
/// port that writes it.
pub proof fn law_absorbed_is_covered(assignments: Seq<AssignmentModel>, property: Seq<char>)
    requires
        packed_result(assignments).absorbed.contains(property),
    ensures
        exists|k: int|
            0 <= k < assignments.len() && (#[trigger] assignments[k]).property == property
                && covered(packed_result(assignments).ports, assignments[k]),
        exists|i: int, at: i64|
            0 <= i < packed_result(assignments).ports.len() && #[trigger] writes_at(
                packed_result(assignments).ports[i],
                at,
                property,
            ),
{
    let found = packed_found(assignments);
    let result = packed_result(assignments);
    assert(clash_free(found.ports));
    lemma_found_covers(assignments, property);
    let k = choose|k: int|
        0 <= k < assignments.len() && (#[trigger] assignments[k]).property == property && covered(
            found.ports,
            assignments[k],
        );
    assert forall|i: int| 0 <= i < layers_of(assignments[k])->0.len() implies covers(
        result.ports,
        #[trigger] layers_of(assignments[k])->0[i],
        property,
    ) by {
        let layer = layers_of(assignments[k])->0[i];
        assert(covers(found.ports, layer, property));
        let j = choose|j: int|
            0 <= j < found.ports.len() && (#[trigger] found.ports[j]).key == layer.key
                && found.ports[j].map.contains_key(layer.base) && found.ports[j].map[layer.base]
                == property;
        lemma_sorted_keeps(found.ports, found.ports[j]);
        assert(found.ports.contains(found.ports[j]));
        let n = choose|n: int| 0 <= n < result.ports.len() && result.ports[n] == found.ports[j];
        assert(result.ports[n].key == layer.key);
    }
    assert(covered(result.ports, assignments[k]));
    let layer = layers_of(assignments[k])->0[0];
    assert(covers(result.ports, layer, property));
    let i = choose|i: int|
        0 <= i < result.ports.len() && (#[trigger] result.ports[i]).key == layer.key
            && result.ports[i].map.contains_key(layer.base) && result.ports[i].map[layer.base]
            == property;
    assert(writes_at(result.ports[i], layer.base, property));
}

proof fn lemma_with_layers_absorbed(
    ports: Seq<PortModel>,
    layers: Seq<LayerModel>,
    property: Seq<char>,
    at: i64,
    absorbed: Set<Seq<char>>,
)
    requires
        only_absorbed(ports, absorbed),
    ensures
        only_absorbed(with_layers(ports, layers, property, at), absorbed.insert(property)),
    decreases layers.len(),
{
    let wider = absorbed.insert(property);
    if layers.len() == 0 {
        assert forall|i: int, x: i64|
            0 <= i < ports.len() && #[trigger] ports[i].map.contains_key(x) implies wider.contains(
            ports[i].map[x],
        ) by {
            assert(absorbed.contains(ports[i].map[x]));
        }
    } else {
        let before = with_layers(ports, layers.drop_last(), property, at);
        lemma_with_layers_absorbed(ports, layers.drop_last(), property, at, absorbed);
        let layer = layers.last();
        lemma_port_index(before, layer.key);
        let after = with_layer(before, layer, property, at);
        assert forall|i: int, x: i64|
            0 <= i < after.len() && #[trigger] after[i].map.contains_key(x) implies wider.contains(
            after[i].map[x],
        ) by {
            if x != layer.base || after[i].map[x] != property {
                assert(before[i].map.contains_key(x));
                assert(wider.contains(before[i].map[x]));
            }
        }
    }
}

proof fn lemma_found_absorbed(assignments: Seq<AssignmentModel>)
    ensures
        only_absorbed(packed_found(assignments).ports, packed_found(assignments).absorbed),
    decreases assignments.len(),
{
    if assignments.len() > 0 {
        let before = packed_found(assignments.drop_last());
        let a = assignments.last();
        lemma_found_absorbed(assignments.drop_last());
        if let Some(layers) = layers_of(a) {
            lemma_with_layers_absorbed(
                before.ports,
                layers,
                a.property,
                name_addr(a.property),
                before.absorbed,
            );
        }
    }
}

/// Ports write nothing but what is absorbed.
pub proof fn law_only_absorbed_is_written(
    assignments: Seq<AssignmentModel>,
    i: int,
    at: i64,
    property: Seq<char>,
)
    requires
        0 <= i < packed_result(assignments).ports.len(),
        writes_at(packed_result(assignments).ports[i], at, property),
    ensures
        packed_result(assignments).absorbed.contains(property),
{
    let found = packed_found(assignments);
    let result = packed_result(assignments);
    lemma_found_absorbed(assignments);
    law_ports_are_ordered(found.ports);
    let p = result.ports[i];
    assert(result.ports.to_multiset().count(p) > 0) by {
        result.ports.to_multiset_ensures();
        assert(result.ports.contains(p));
    }
    found.ports.to_multiset_ensures();
    assert(found.ports.contains(p));
    let j = choose|j: int| 0 <= j < found.ports.len() && found.ports[j] == p;
    assert(found.ports[j].map.contains_key(at));
}

/// Recognition is all or nothing: too few cells, and the result is empty.
pub proof fn law_threshold(assignments: Seq<AssignmentModel>)
    ensures
        packed_result(assignments).absorbed.len() >= MIN_CELLS_FOR_RECOGNITION || (packed_result(
            assignments,
        ).ports.len() == 0 && packed_result(assignments).absorbed == Set::<Seq<char>>::empty()),
{
}

} // verus!
