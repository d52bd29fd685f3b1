//! Setting a state up from declarations.

use calcite_core::number::Number;
use calcite_core::pattern::dispatch_table::{recognise_dispatch, recognise_dispatch_key};
use calcite_core::types::{
    Assignment, CssValue, Expr, FunctionDef, FunctionParam, InputEdge, LocalVarDef, ParsedProgram,
    PropertyDef, PropertySyntax, StyleBranch, StyleTest,
};
use calcite_core::State;

fn lit(v: f64) -> Expr {
    Expr::Literal(Number::from_bits(v.to_bits()))
}

fn prop(name: &str, initial_value: Option<CssValue>) -> PropertyDef {
    PropertyDef {
        name: name.to_string(),
        syntax: PropertySyntax::Integer,
        inherits: true,
        initial_value,
    }
}

#[test]
fn declarations_become_variables_and_bytes() {
    let mut state = State::new(4);
    let addresses = state.load_properties(&[
        prop("--AX", Some(CssValue::Integer(0x1234))),
        prop("--m7", Some(CssValue::Integer(0x1FF))),
        prop("--IP", None),
        prop("--clock", Some(CssValue::Integer(1))),
        prop("--m983040", Some(CssValue::Integer(5))),
    ]);
    assert_eq!(state.get_var("AX"), Some(0x1234));
    assert_eq!(state.get_var("IP"), Some(0));
    assert_eq!(state.state_var_count(), 2);
    assert_eq!(state.memory.len(), 8);
    assert_eq!(state.read_mem(7), 0xFF);
    assert_eq!(state.read_mem(983040), 5);
    assert_eq!(addresses.get("AX"), Some(&-1));
    assert_eq!(addresses.get("IP"), Some(&-2));
    assert_eq!(addresses.get("m7"), None);
}

#[test]
fn loading_again_replaces_the_variables() {
    let mut state = State::new(4);
    state.load_properties(&[prop("--AX", None), prop("--BX", None)]);
    state.load_properties(&[prop("--CX", Some(CssValue::Integer(3)))]);
    assert_eq!(state.state_var_count(), 1);
    assert_eq!(state.get_var("AX"), None);
    assert_eq!(state.get_var("CX"), Some(3));
    assert_eq!(state.var_slot("CX"), Some(0));
}

#[test]
fn literal_entries_of_a_read_table_are_stored() {
    let branches: Vec<StyleBranch> = [(0, 0x41), (3, 0x1FF), (0xF0001, 9)]
        .iter()
        .map(|(key, value)| StyleBranch {
            condition: StyleTest::Single {
                property: "--at".to_string(),
                value: lit(*key as f64),
            },
            then: lit(*value as f64),
        })
        .chain([StyleBranch {
            condition: StyleTest::Single { property: "--at".to_string(), value: lit(1.0) },
            then: Expr::Var { name: "--m1".to_string(), fallback: None },
        }])
        .collect();
    assert_eq!(recognise_dispatch_key(&branches), Some("--at"));
    let table = recognise_dispatch(&branches, &lit(0.0)).unwrap();
    let mut state = State::new(4);
    state.memory[1] = 0x77;
    state.populate_memory_from_readmem(&table);
    assert_eq!(state.memory, vec![0x41, 0x77, 0, 0xFF]);
    assert_eq!(state.read_mem(0xF0001), 9);
}

#[test]
fn a_read_table_leaves_other_addresses_alone() {
    let branches: Vec<StyleBranch> = [(0xF0000, 0x1234), (0xF0002, 7), (-5, 1), (2, 3)]
        .iter()
        .map(|(key, value)| StyleBranch {
            condition: StyleTest::Single {
                property: "--at".to_string(),
                value: lit(*key as f64),
            },
            then: lit(*value as f64),
        })
        .collect();
    let table = recognise_dispatch(&branches, &lit(0.0)).unwrap();
    let mut state = State::new(4);
    state.write_mem(0xF0001, 0x55);
    state.write_mem(0xF0002, 0x66);
    state.populate_memory_from_readmem(&table);
    assert_eq!(state.extended.get(&0xF0000), Some(&0x1234));
    assert_eq!(state.extended.get(&0xF0001), Some(&0x55));
    assert_eq!(state.extended.get(&0xF0002), Some(&7));
    assert_eq!(state.extended.len(), 3);
    assert_eq!(state.memory, vec![0, 0, 3, 0]);
}

#[test]
fn a_copied_program_is_the_same_program() {
    let mut program = ParsedProgram::default();
    program.properties.push(prop("--AX", Some(CssValue::Integer(3))));
    program.properties.push(prop("--text", Some(CssValue::String("x".to_string()))));
    program.functions.push(FunctionDef {
        name: "--readMem".to_string(),
        parameters: vec![FunctionParam {
            name: "--at".to_string(),
            syntax: PropertySyntax::Custom("<color>".to_string()),
        }],
        locals: vec![LocalVarDef { name: "--t".to_string(), value: lit(1.0) }],
        result: Expr::Var { name: "--t".to_string(), fallback: Some(Box::new(lit(2.0))) },
    });
    program.assignments.push(Assignment { property: "--AX".to_string(), value: lit(4.0) });
    program.fast_path_absorbed.insert("--m1".to_string());
    program.input_edges.push(InputEdge {
        property: "--keyboard".to_string(),
        pseudo: "active".to_string(),
        selector: "kb-1".to_string(),
        value: lit(5.0),
    });
    let copy = program.clone();
    assert_eq!(copy.properties, program.properties);
    assert_eq!(copy.functions, program.functions);
    assert_eq!(copy.assignments, program.assignments);
    assert_eq!(copy.fast_path_absorbed, program.fast_path_absorbed);
    assert!(copy.fast_path_absorbed.contains("--m1"));
    assert_eq!(copy.input_edges, program.input_edges);
}
