//! Watches written as text.

use calcite_core::script::{Action, WatchKind};
use calcite_core::script_spec::parse_watch;


#[test]
fn parse_stride_basic() {
    let w = parse_watch("tick:stride:every=100").unwrap();
    assert_eq!(w.name, "tick");
    match w.kind {
        WatchKind::Stride { every, .. } => assert_eq!(every, 100),
        _ => panic!("wrong kind"),
    }
}

#[test]
fn parse_cond_with_pattern_and_actions() {
    let w = parse_watch(
        "drdos:cond:0x449=0x03,pattern@0xb8000:2:4000=DR-DOS:gate=poll:then=emit+halt",
    )
    .unwrap();
    assert_eq!(w.name, "drdos");
    assert_eq!(w.gate.as_deref(), Some("poll"));
    assert_eq!(w.actions.len(), 2);
    match &w.kind {
        WatchKind::Cond { tests, repeat, .. } => {
            assert_eq!(tests.len(), 2);
            assert!(!repeat);
        }
        _ => panic!("wrong kind"),
    }
}

#[test]
fn parse_dump_action_with_template_path() {
    let w = parse_watch(
        "dump_at:at:tick=2000000:then=dump=0xb8000,4000,vram_{tick}.bin",
    )
    .unwrap();
    assert_eq!(w.actions.len(), 1);
    match &w.actions[0] {
        Action::DumpMemRange {
            addr,
            len,
            path_template,
        } => {
            assert_eq!(*addr, 0xb8000);
            assert_eq!(*len, 4000);
            assert_eq!(path_template, "vram_{tick}.bin");
        }
        _ => panic!("wrong action"),
    }
}

#[test]
fn parse_burst() {
    let w = parse_watch("b:burst:every=1000,count=5").unwrap();
    match w.kind {
        WatchKind::Burst { every, count } => {
            assert_eq!(every, 1000);
            assert_eq!(count, 5);
        }
        _ => panic!("wrong kind"),
    }
}

#[test]
fn parse_setvar_action() {
    let w = parse_watch("kbd:at:tick=500:then=setvar=keyboard,0x1c0d").unwrap();
    match &w.actions[0] {
        Action::SetVar { name, value } => {
            assert_eq!(name, "keyboard");
            assert_eq!(*value, 0x1c0d);
        }
        _ => panic!("wrong action"),
    }
}

#[test]
fn parse_pseudo_pulse_action() {
    let w = parse_watch(
        "tap:at:tick=500:then=pseudo_pulse=active,kb-enter,50000",
    )
    .unwrap();
    match &w.actions[0] {
        Action::PseudoActivePulse {
            pseudo,
            selector,
            hold_ticks,
        } => {
            assert_eq!(pseudo, "active");
            assert_eq!(selector, "kb-enter");
            assert_eq!(*hold_ticks, 50_000);
        }
        other => panic!("wrong action: {other:?}"),
    }
}

#[test]
fn parse_pseudo_pulse_rejects_bad_arity() {
    assert!(parse_watch("t:at:tick=1:then=pseudo_pulse=foo,bar").is_err());
    assert!(parse_watch("t:at:tick=1:then=pseudo_pulse=foo,bar,0").is_err());
}

#[test]
fn parse_sample_vars() {
    let w = parse_watch("p:stride:every=1000:sample=AX,IP,cycleCount").unwrap();
    assert_eq!(w.sample_vars, vec!["AX", "IP", "cycleCount"]);
}
