//! The grammar of watches, and what it rejects.

use calcite_core::script::{Action, Predicate, WatchKind};
use calcite_core::script_spec::{parse_watch, WatchError};

#[test]
fn every_kind_is_read() {
    match parse_watch("a:at:tick=0x10").unwrap().kind {
        WatchKind::At { tick } => assert_eq!(tick, 16),
        _ => panic!("wrong kind"),
    }
    match parse_watch("e:edge:addr= +5 ").unwrap().kind {
        WatchKind::Edge { addr, last, primed } => {
            assert_eq!(addr, 5);
            assert_eq!(last, 0);
            assert!(!primed);
        }
        _ => panic!("wrong kind"),
    }
    match parse_watch("h:halt:addr=-1").unwrap().kind {
        WatchKind::Halt { addr } => assert_eq!(addr, -1),
        _ => panic!("wrong kind"),
    }
    match parse_watch("b:burst: count=2 ,,every=9,count=3").unwrap().kind {
        WatchKind::Burst { every, count } => assert_eq!((every, count), (9, 3)),
        _ => panic!("wrong kind"),
    }
}

#[test]
fn conditions_hold_their_tests() {
    let w = parse_watch("c:cond: 1=2 ,0X10!=0xFF,repeat,pattern@0:1:0x20=a=b").unwrap();
    match w.kind {
        WatchKind::Cond { tests, repeat, fired, last_held } => {
            assert!(repeat && !fired && !last_held);
            assert_eq!(tests.len(), 3);
            assert!(matches!(tests[0], Predicate::ByteEq { addr: 1, val: 2 }));
            assert!(matches!(tests[1], Predicate::ByteNe { addr: 16, val: 255 }));
            match &tests[2] {
                Predicate::BytePatternAt { base, stride, max_window, needle } => {
                    assert_eq!((*base, *stride, *max_window), (0, 1, 32));
                    assert_eq!(needle, b"a=b");
                }
                _ => panic!("wrong test"),
            }
        }
        _ => panic!("wrong kind"),
    }
}

#[test]
fn numbers_are_cut_to_their_width() {
    let w = parse_watch("n:cond:0x100000001=0x1FF").unwrap();
    match w.kind {
        WatchKind::Cond { tests, .. } => {
            assert!(matches!(tests[0], Predicate::ByteEq { addr: 1, val: 255 }))
        }
        _ => panic!("wrong kind"),
    }
}

#[test]
fn actions_are_read_in_order() {
    let w = parse_watch(
        "a:at:tick=1:then=emit++ setvar_pulse=kb,7,2 +snapshot:gate=g1:gate=g2:then=halt+dump=1,2",
    )
    .unwrap();
    assert_eq!(w.gate.as_deref(), Some("g2"));
    assert_eq!(w.actions.len(), 5);
    assert!(matches!(w.actions[0], Action::Emit));
    match &w.actions[1] {
        Action::SetVarPulse { name, value, hold_ticks } => {
            assert_eq!(name, "kb");
            assert_eq!((*value, *hold_ticks), (7, 2));
        }
        _ => panic!("wrong action"),
    }
    match &w.actions[2] {
        Action::Snapshot { path_template } => assert_eq!(path_template, "snapshot_{tick}.bin"),
        _ => panic!("wrong action"),
    }
    assert!(matches!(w.actions[3], Action::Halt));
    match &w.actions[4] {
        Action::DumpMemRange { addr, len, path_template } => {
            assert_eq!((*addr, *len), (1, 2));
            assert_eq!(path_template, "dump_{tick}.bin");
        }
        _ => panic!("wrong action"),
    }
}

#[test]
fn paths_may_hold_colons_and_commas() {
    let w = parse_watch("d:at:tick=1:then=dump=1,2,C:\\a,b.bin+snapshot=D:\\s:sample=x, y,")
        .unwrap();
    match &w.actions[0] {
        Action::DumpMemRange { path_template, .. } => assert_eq!(path_template, "C:\\a,b.bin"),
        _ => panic!("wrong action"),
    }
    match &w.actions[1] {
        Action::Snapshot { path_template } => assert_eq!(path_template, "D:\\s"),
        _ => panic!("wrong action"),
    }
    assert_eq!(w.sample_vars, vec!["x", "y"]);
}

#[test]
fn each_error_has_its_input() {
    let error = |s: &str| parse_watch(s).unwrap_err();
    assert!(matches!(error("a:at"), WatchError::TooFewFields { .. }));
    assert!(matches!(error(":at:tick=1"), WatchError::EmptyName { .. }));
    assert!(matches!(error("a:never:x"), WatchError::UnknownKind { text } if text == "never"));
    assert!(matches!(
        error("a:at:tick= 1x "),
        WatchError::InvalidNumber { what: "tick", text } if text == "1x"
    ));
    assert!(matches!(
        error("a:stride:count=1"),
        WatchError::MissingKey { key: "every", text } if text == "count=1"
    ));
    assert!(matches!(error("a:cond:pattern@1:2:3"), WatchError::MissingNeedle { .. }));
    assert!(matches!(
        error("a:cond:pattern@1:2=x"),
        WatchError::PatternFields { text } if text == "1:2"
    ));
    assert!(matches!(error("a:cond:what"), WatchError::UnknownTest { text } if text == "what"));
    assert!(matches!(error("a:cond:repeat"), WatchError::NoTests { name } if name == "a"));
    assert!(matches!(
        error("a:burst:every=1, odd"),
        WatchError::UnknownBurstField { text } if text == " odd"
    ));
    assert!(matches!(error("a:burst:count=1"), WatchError::MissingBurstField { key: "every" }));
    assert!(matches!(error("a:burst:every=1"), WatchError::MissingBurstField { key: "count" }));
    assert!(matches!(
        error("a:at:tick=1:then=setvar=x"),
        WatchError::ActionFields { action: "setvar", text } if text == "x"
    ));
    assert!(matches!(
        error("a:at:tick=1:then=setvar_pulse=x,1,0"),
        WatchError::ZeroHold { action: "setvar_pulse", .. }
    ));
    assert!(matches!(
        error("a:at:tick=1:then= jump "),
        WatchError::UnknownAction { text } if text == "jump"
    ));
}

#[test]
fn errors_of_actions_come_first() {
    assert!(matches!(
        parse_watch("a:at:tock=1:then=jump").unwrap_err(),
        WatchError::UnknownAction { .. }
    ));
}

#[test]
fn number_limits() {
    let ok = |s: &str| parse_watch(&format!("a:at:tick={s}")).is_ok();
    assert!(ok("9223372036854775807"));
    assert!(!ok("9223372036854775808"));
    assert!(ok("-9223372036854775808"));
    assert!(!ok("-9223372036854775809"));
    assert!(ok("0x7fffffffffffffff"));
    assert!(!ok("0x8000000000000000"));
    assert!(ok("0x-8000000000000000"));
    assert!(!ok(""));
    assert!(!ok("+"));
    assert!(!ok("0x"));
    assert!(!ok("1 2"));
}
