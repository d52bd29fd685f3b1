//! What packed write ports have to do with the slots of the cells.

use crate::number;
use crate::pattern::loop_descriptor::meaning;
use crate::pattern::loop_descriptor::meaning::Reading;
use crate::pattern::packed_broadcast_write as packed;
use crate::pattern::packed_broadcast_write::{LayerModel, PortKey, PortModel};
use crate::text;
use crate::types::{AssignmentModel, CalcKind, ExprModel};
use vstd::prelude::*;

verus! {

// ---------------------------------------------------------------------------
// Constants
// ---------------------------------------------------------------------------

/// Does a number fit into 64 bits?
pub open spec fn fits(n: int) -> bool {
    i64::MIN <= n <= i64::MAX
}

/// Is an expression made of whole literals with `+ - *` whose results all fit?
pub open spec fn exact_constant(e: ExprModel) -> bool
    decreases e,
{
    match e {
        ExprModel::Number(bits) => number::whole_value(bits) matches Some(n) && fits(n),
        ExprModel::Calc(kind, parts) => {
            &&& parts.len() == 2
            &&& exact_constant(parts[0])
            &&& exact_constant(parts[1])
            &&& packed::const_value(parts[0]) matches Some(a)
            &&& packed::const_value(parts[1]) matches Some(b)
            &&& match kind {
                CalcKind::Add => fits(a + b),
                CalcKind::Sub => fits(a - b),
                CalcKind::Mul => fits(a * b),
                _ => false,
            }
        },
        _ => false,
    }
}

proof fn lemma_constant(e: ExprModel, r: Reading)
    requires
        exact_constant(e),
    ensures
        packed::const_value(e) matches Some(k) && meaning::value(e, r) == Some(k as int),
    decreases e,
{
    if let ExprModel::Calc(kind, parts) = e {
        assert(decreases_to!(parts => parts[0]) && decreases_to!(parts => parts[1]));
        lemma_constant(parts[0], r);
        lemma_constant(parts[1], r);
        meaning::lemma_binary(e, kind, r);
    }
}

/// Is an expression a variable with exact constants added to it and taken off it?
pub open spec fn exact_offset(e: ExprModel, addr: Seq<char>) -> bool
    decreases e,
{
    match e {
        ExprModel::Var(name, _) => name == addr,
        ExprModel::Calc(kind, parts) => {
            &&& parts.len() == 2
            &&& match kind {
                CalcKind::Add => {
                    ||| (exact_offset(parts[0], addr) && exact_constant(parts[1])
                        && packed::offset_from(parts[0], addr) is Some && fits(
                        packed::offset_from(parts[0], addr)->0 + packed::const_value(parts[1])->0,
                    ))
                    ||| (exact_constant(parts[0]) && exact_offset(parts[1], addr)
                        && packed::offset_from(parts[0], addr) is None && packed::offset_from(
                        parts[1],
                        addr,
                    ) is Some && fits(
                        packed::const_value(parts[0])->0 + packed::offset_from(parts[1], addr)->0,
                    ))
                },
                CalcKind::Sub => exact_offset(parts[0], addr) && exact_constant(parts[1])
                    && packed::offset_from(parts[0], addr) is Some && fits(
                    packed::offset_from(parts[0], addr)->0 - packed::const_value(parts[1])->0,
                ),
                _ => false,
            }
        },
        _ => false,
    }
}

proof fn lemma_offset(e: ExprModel, addr: Seq<char>, r: Reading)
    requires
        exact_offset(e, addr),
    ensures
        packed::offset_from(e, addr) matches Some(k) && meaning::value(e, r) == Some(
            (r.vars)(addr) + k,
        ),
    decreases e,
{
    if let ExprModel::Calc(kind, parts) = e {
        assert(decreases_to!(parts => parts[0]) && decreases_to!(parts => parts[1]));
        meaning::lemma_binary(e, kind, r);
        if exact_offset(parts[0], addr) && exact_constant(parts[1]) {
            lemma_offset(parts[0], addr, r);
            lemma_constant(parts[1], r);
        } else {
            lemma_offset(parts[1], addr, r);
            lemma_constant(parts[0], r);
        }
    }
}

// ---------------------------------------------------------------------------
// Slots
// ---------------------------------------------------------------------------

/// Is a call a slot of the port with the cell at `base`: its gate, value and width
/// are the port's variables, and the two distances are those of the written
/// address to the cell's first byte and to one byte before, whatever the address is?
pub open spec fn is_slot(args: Seq<ExprModel>, key: PortKey, base: i64) -> bool {
    &&& args.len() == 6
    &&& args[1] matches ExprModel::Var(gate, _)
    &&& gate == key.gate
    &&& args[4] matches ExprModel::Var(val, _)
    &&& val == key.val
    &&& args[5] matches ExprModel::Var(width, _)
    &&& width == key.width
    &&& base >= 0
    &&& exact_offset(args[2], key.addr) ==> forall|r: Reading|
        (#[trigger] meaning::value(args[2], r)) == Some((r.vars)(key.addr) - base)
    &&& exact_offset(args[3], key.addr) ==> forall|r: Reading|
        (#[trigger] meaning::value(args[3], r)) == Some((r.vars)(key.addr) + 1 - base)
}

proof fn lemma_layer(args: Seq<ExprModel>)
    requires
        packed::layer_of(args) is Some,
    ensures
        is_slot(args, (packed::layer_of(args)->0).key, (packed::layer_of(args)->0).base),
{
    let layer = packed::layer_of(args)->0;
    let addr = layer.key.addr;
    if exact_offset(args[2], addr) {
        assert forall|r: Reading| (#[trigger] meaning::value(args[2], r)) == Some(
            (r.vars)(addr) - layer.base,
        ) by {
            lemma_offset(args[2], addr, r);
            if let ExprModel::Calc(kind, parts) = args[2] {
                meaning::lemma_binary(args[2], CalcKind::Sub, r);
                lemma_constant(parts[1], r);
            }
        }
    }
    if exact_offset(args[3], addr) {
        assert forall|r: Reading| (#[trigger] meaning::value(args[3], r)) == Some(
            (r.vars)(addr) + 1 - layer.base,
        ) by {
            lemma_offset(args[3], addr, r);
        }
    }
}

/// Is a call with these arguments in the nest of an expression, `depth` calls deep?
pub open spec fn nested(e: ExprModel, args: Seq<ExprModel>, depth: nat) -> bool
    decreases depth,
{
    e matches ExprModel::Call(name, outer) && text::ends_with(name, "applySlot"@) && outer.len()
        == 6 && if depth == 0 {
        outer == args
    } else {
        nested(outer[0], args, (depth - 1) as nat)
    }
}

/// Is the call at a depth of the nest the given slot?
spec fn slot_at(e: ExprModel, depth: nat, layer: LayerModel) -> bool {
    exists|args: Seq<ExprModel>| #[trigger]
        nested(e, args, depth) && is_slot(args, layer.key, layer.base)
}

proof fn lemma_chain(e: ExprModel)
    ensures
        packed::chain(e) matches Some((layers, _)) ==> forall|i: int|
            0 <= i < layers.len() ==> slot_at(e, i as nat, #[trigger] layers[i]),
    decreases e,
{
    if let Some((layers, tail)) = packed::chain(e) {
        if let ExprModel::Call(name, outer) = e {
            assert(decreases_to!(outer => outer[0]));
            lemma_chain(outer[0]);
            lemma_layer(outer);
            let (inner, _) = packed::chain(outer[0])->0;
            assert forall|i: int| 0 <= i < layers.len() implies slot_at(
                e,
                i as nat,
                #[trigger] layers[i],
            ) by {
                if i == 0 {
                    assert(nested(e, outer, 0));
                    assert(is_slot(outer, layers[0].key, layers[0].base));
                } else {
                    assert(layers[i] == inner[i - 1]);
                    assert(slot_at(outer[0], (i - 1) as nat, inner[i - 1]));
                    let args = choose|args: Seq<ExprModel>| #[trigger]
                        nested(outer[0], args, (i - 1) as nat) && is_slot(
                            args,
                            inner[i - 1].key,
                            inner[i - 1].base,
                        );
                    lemma_nested(e, args, (i - 1) as nat);
                    assert(is_slot(args, layers[i].key, layers[i].base));
                }
            }
        }
    }
}

proof fn lemma_nested(e: ExprModel, args: Seq<ExprModel>, depth: nat)
    requires
        e matches ExprModel::Call(name, outer) && text::ends_with(name, "applySlot"@)
            && outer.len() == 6 && nested(outer[0], args, depth),
    ensures
        nested(e, args, depth + 1),
{
}

// ---------------------------------------------------------------------------
// Entries
// ---------------------------------------------------------------------------

/// Does some assignment have a slot that puts the cell at an address of a port?
pub open spec fn from_a_slot(
    v: Seq<AssignmentModel>,
    key: PortKey,
    at: i64,
    property: Seq<char>,
) -> bool {
    exists|k: int, args: Seq<ExprModel>, depth: nat|
        0 <= k < v.len() && (#[trigger] v[k]).property == property && #[trigger] nested(
            v[k].value,
            args,
            depth,
        ) && is_slot(args, key, at)
}

/// Does every entry of the ports come from a slot?
spec fn entries_hold(ports: Seq<PortModel>, v: Seq<AssignmentModel>) -> bool {
    forall|i: int, at: i64|
        0 <= i < ports.len() && #[trigger] ports[i].map.contains_key(at) ==> from_a_slot(
            v,
            ports[i].key,
            at,
            ports[i].map[at],
        )
}

proof fn lemma_index(ports: Seq<PortModel>, key: PortKey)
    ensures
        packed::port_index(ports, key) matches Some(i) ==> 0 <= i < ports.len() && ports[i].key
            == key,
    decreases ports.len(),
{
    if ports.len() > 0 {
        lemma_index(ports.drop_last(), key);
    }
}

proof fn lemma_layers_hold(
    ports: Seq<PortModel>,
    layers: Seq<LayerModel>,
    property: Seq<char>,
    at: i64,
    v: Seq<AssignmentModel>,
)
    requires
        entries_hold(ports, v),
        forall|i: int|
            0 <= i < layers.len() ==> from_a_slot(
                v,
                (#[trigger] layers[i]).key,
                layers[i].base,
                property,
            ),
    ensures
        entries_hold(packed::with_layers(ports, layers, property, at), v),
    decreases layers.len(),
{
    if layers.len() > 0 {
        let rest = layers.drop_last();
        assert forall|i: int| 0 <= i < rest.len() implies from_a_slot(
            v,
            (#[trigger] rest[i]).key,
            rest[i].base,
            property,
        ) by {
            assert(rest[i] == layers[i]);
        }
        lemma_layers_hold(ports, rest, property, at, v);
        let before = packed::with_layers(ports, rest, property, at);
        let layer = layers.last();
        assert(layer == layers[layers.len() - 1]);
        lemma_index(before, layer.key);
        let after = packed::with_layer(before, layer, property, at);
        assert forall|i: int, x: i64|
            0 <= i < after.len() && #[trigger] after[i].map.contains_key(x) implies from_a_slot(
            v,
            after[i].key,
            x,
            after[i].map[x],
        ) by {
            let here = match packed::port_index(before, layer.key) {
                Some(j) => j,
                None => before.len() as int,
            };
            if i == here && x == layer.base {
                assert(after[i].map[x] == property && after[i].key == layer.key);
            } else {
                assert(before[i].map.contains_key(x));
                assert(after[i].key == before[i].key && after[i].map[x] == before[i].map[x]);
            }
        }
    }
}

proof fn lemma_grows(v: Seq<AssignmentModel>, key: PortKey, at: i64, property: Seq<char>)
    requires
        v.len() > 0,
        from_a_slot(v.drop_last(), key, at, property),
    ensures
        from_a_slot(v, key, at, property),
{
    let rest = v.drop_last();
    let (k, args, depth) = choose|k: int, args: Seq<ExprModel>, depth: nat|
        0 <= k < rest.len() && (#[trigger] rest[k]).property == property && #[trigger] nested(
            rest[k].value,
            args,
            depth,
        ) && is_slot(args, key, at);
    assert(v[k] == rest[k]);
    assert(nested(v[k].value, args, depth));
}

proof fn lemma_found_holds(v: Seq<AssignmentModel>)
    ensures
        entries_hold(packed::packed_found(v).ports, v),
    decreases v.len(),
{
    if v.len() > 0 {
        let rest = v.drop_last();
        lemma_found_holds(rest);
        let before = packed::packed_found(rest);
        let a = v.last();
        let n = rest.len() as int;
        assert(v[n] == a);
        assert forall|i: int, at: i64|
            0 <= i < before.ports.len() && #[trigger] before.ports[i].map.contains_key(
                at,
            ) implies from_a_slot(v, before.ports[i].key, at, before.ports[i].map[at]) by {
            lemma_grows(v, before.ports[i].key, at, before.ports[i].map[at]);
        }
        if let Some(layers) = packed::layers_of(a) {
            lemma_chain(a.value);
            assert forall|i: int| 0 <= i < layers.len() implies from_a_slot(
                v,
                (#[trigger] layers[i]).key,
                layers[i].base,
                a.property,
            ) by {
                assert(slot_at(a.value, i as nat, layers[i]));
                let args = choose|args: Seq<ExprModel>| #[trigger]
                    nested(a.value, args, i as nat) && is_slot(
                        args,
                        layers[i].key,
                        layers[i].base,
                    );
                assert(nested(v[n].value, args, i as nat));
            }
            lemma_layers_hold(
                before.ports,
                layers,
                a.property,
                packed::name_addr(a.property),
                v,
            );
        }
    }
}

/// Every entry of a reported port comes from a slot: where a port leads from an
/// address to a cell, the cell's assignment holds a call whose gate, value and width
/// are the port's variables and whose distances are those of the port's address
/// variable to that address.
pub proof fn law_port_entry_is_a_slot(v: Seq<AssignmentModel>, i: int, at: i64)
    requires
        0 <= i < packed::packed_result(v).ports.len(),
        packed::packed_result(v).ports[i].map.contains_key(at),
    ensures
        from_a_slot(
            v,
            packed::packed_result(v).ports[i].key,
            at,
            packed::packed_result(v).ports[i].map[at],
        ),
{
    let found = packed::packed_found(v);
    let result = packed::packed_result(v);
    lemma_found_holds(v);
    packed::law_ports_are_ordered(found.ports);
    let p = result.ports[i];
    assert(result.ports.to_multiset().count(p) > 0) by {
        result.ports.to_multiset_ensures();
        assert(result.ports.contains(p));
    }
    found.ports.to_multiset_ensures();
    assert(found.ports.contains(p));
    let j = found.ports.index_of(p);
    assert(found.ports[j].map.contains_key(at));
}

/// Whatever is absorbed is written at each of its slots: a cell is absorbed on account
/// of an assignment whose every nested slot, from the outermost inward, has a port
/// that leads from the slot's address to the cell.
pub proof fn law_absorbed_slots_have_ports(v: Seq<AssignmentModel>, property: Seq<char>)
    requires
        packed::packed_result(v).absorbed.contains(property),
    ensures
        exists|k: int|
            0 <= k < v.len() && (#[trigger] v[k]).property == property && slots_have_ports(
                v[k].value,
                packed::packed_result(v).ports,
                property,
            ),
{
    packed::law_absorbed_is_covered(v, property);
    let ports = packed::packed_result(v).ports;
    let k = choose|k: int|
        0 <= k < v.len() && (#[trigger] v[k]).property == property && packed::covered(ports, v[k]);
    let e = v[k].value;
    let layers = packed::layers_of(v[k])->0;
    assert forall|depth: nat, args: Seq<ExprModel>| #[trigger]
        nested(e, args, depth) implies exists|i: int, at: i64|
        0 <= i < ports.len() && is_slot(args, (#[trigger] ports[i]).key, at) && #[trigger]
            packed::writes_at(ports[i], at, property) by {
        lemma_nested_layer(e, args, depth);
        lemma_layer(args);
        let layer = layers[depth as int];
        assert(packed::covers(ports, layer, property));
        let i = choose|i: int|
            0 <= i < ports.len() && (#[trigger] ports[i]).key == layer.key
                && ports[i].map.contains_key(layer.base) && ports[i].map[layer.base] == property;
        assert(packed::writes_at(ports[i], layer.base, property));
        assert(is_slot(args, ports[i].key, layer.base));
    }
}

/// Does every slot in the nest of an expression have a port that leads from its
/// address to the cell?
pub open spec fn slots_have_ports(
    e: ExprModel,
    ports: Seq<PortModel>,
    property: Seq<char>,
) -> bool {
    forall|depth: nat, args: Seq<ExprModel>| #[trigger]
        nested(e, args, depth) ==> exists|i: int, at: i64|
            0 <= i < ports.len() && is_slot(args, (#[trigger] ports[i]).key, at) && #[trigger]
                packed::writes_at(ports[i], at, property)
}

/// The slot at a depth of the nest is the slot at that place of the chain.
proof fn lemma_nested_layer(e: ExprModel, args: Seq<ExprModel>, depth: nat)
    requires
        packed::chain(e) is Some,
        nested(e, args, depth),
    ensures
        depth < (packed::chain(e)->0).0.len(),
        packed::layer_of(args) == Some((packed::chain(e)->0).0[depth as int]),
    decreases depth,
{
    if let ExprModel::Call(name, outer) = e {
        let layers = (packed::chain(e)->0).0;
        let inner = (packed::chain(outer[0])->0).0;
        assert(layers == seq![packed::layer_of(outer)->0] + inner);
        if depth > 0 {
            lemma_nested_layer(outer[0], args, (depth - 1) as nat);
            assert(layers[depth as int] == inner[depth - 1]);
        }
    }
}

} // verus!
