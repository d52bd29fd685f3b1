//! Watches written as text.
//!
//! ```text
//! NAME:KIND:SPEC[:gate=NAME][:sample=VAR1,VAR2][:then=ACTION1+ACTION2+...]
//! ```
//!
//! Fields are separated by `:`. The variables of `sample=` are separated by `,`, the
//! actions of `then=` by `+`, so that an action's own parts may hold `,` and `:`.
//!
//! `KIND:SPEC` is one of `stride:every=N`, `burst:every=N,count=K`, `at:tick=T`,
//! `edge:addr=A`, `cond:TEST[,TEST...][,repeat]` and `halt:addr=A`, where a test is
//! `ADDR=VAL`, `ADDR!=VAL` or `pattern@BASE:STRIDE:WINDOW=NEEDLE`.
//!
//! An action is one of `emit`, `halt`, `setvar=NAME,VALUE`,
//! `setvar_pulse=NAME,VALUE,HOLD_TICKS`, `pseudo_pulse=PSEUDO,SELECTOR,HOLD_TICKS`,
//! `dump=ADDR,LEN[,PATH]` and `snapshot[=PATH]`.
//!
//! Numbers are decimal, or hexadecimal after `0x`.

use crate::fields;
use crate::script::{
    Action, ActionModel, KindModel, Predicate, PredicateModel, WatchKind, WatchModel, WatchSpec,
};
use crate::text;
use vstd::prelude::*;

verus! {

/// Why a text is not a watch.
#[derive(Debug, Clone)]
pub enum WatchError {
    /// There are less than three fields.
    TooFewFields {
        /// The text.
        text: String,
    },
    /// The name is empty.
    EmptyName {
        /// The text.
        text: String,
    },
    /// The kind is not known.
    UnknownKind {
        /// The kind.
        text: String,
    },
    /// A number cannot be read.
    InvalidNumber {
        /// What the number stands for.
        what: &'static str,
        /// The number's text.
        text: String,
    },
    /// A value does not start with its key.
    MissingKey {
        /// The key.
        key: &'static str,
        /// The text.
        text: String,
    },
    /// A pattern has no needle.
    MissingNeedle {
        /// The test.
        text: String,
    },
    /// A pattern does not have a base, a stride and a window.
    PatternFields {
        /// What stands before the needle.
        text: String,
    },
    /// A test is of none of the known forms.
    UnknownTest {
        /// The test.
        text: String,
    },
    /// A condition has no tests.
    NoTests {
        /// The watch.
        name: String,
    },
    /// A field of a burst is not known.
    UnknownBurstField {
        /// The field.
        text: String,
    },
    /// A field of a burst is not given.
    MissingBurstField {
        /// The field's key.
        key: &'static str,
    },
    /// An action does not have the fields that it takes.
    ActionFields {
        /// The action.
        action: &'static str,
        /// The fields.
        text: String,
    },
    /// A pulse would never end.
    ZeroHold {
        /// The action.
        action: &'static str,
        /// The fields.
        text: String,
    },
    /// The action is not known.
    UnknownAction {
        /// The action.
        text: String,
    },
}

/// The value of a [`WatchError`].
#[verifier::ext_equal]
pub enum ErrorModel {
    TooFewFields(Seq<char>),
    EmptyName(Seq<char>),
    UnknownKind(Seq<char>),
    InvalidNumber(Seq<char>, Seq<char>),
    MissingKey(Seq<char>, Seq<char>),
    MissingNeedle(Seq<char>),
    PatternFields(Seq<char>),
    UnknownTest(Seq<char>),
    NoTests(Seq<char>),
    UnknownBurstField(Seq<char>),
    MissingBurstField(Seq<char>),
    ActionFields(Seq<char>, Seq<char>),
    ZeroHold(Seq<char>, Seq<char>),
    UnknownAction(Seq<char>),
}

impl WatchError {
    /// The value of an error.
    pub open spec fn view(&self) -> ErrorModel {
        match self {
            WatchError::TooFewFields { text } => ErrorModel::TooFewFields(text@),
            WatchError::EmptyName { text } => ErrorModel::EmptyName(text@),
            WatchError::UnknownKind { text } => ErrorModel::UnknownKind(text@),
            WatchError::InvalidNumber { what, text } => ErrorModel::InvalidNumber(what@, text@),
            WatchError::MissingKey { key, text } => ErrorModel::MissingKey(key@, text@),
            WatchError::MissingNeedle { text } => ErrorModel::MissingNeedle(text@),
            WatchError::PatternFields { text } => ErrorModel::PatternFields(text@),
            WatchError::UnknownTest { text } => ErrorModel::UnknownTest(text@),
            WatchError::NoTests { name } => ErrorModel::NoTests(name@),
            WatchError::UnknownBurstField { text } => ErrorModel::UnknownBurstField(text@),
            WatchError::MissingBurstField { key } => ErrorModel::MissingBurstField(key@),
            WatchError::ActionFields { action, text } => ErrorModel::ActionFields(action@, text@),
            WatchError::ZeroHold { action, text } => ErrorModel::ZeroHold(action@, text@),
            WatchError::UnknownAction { text } => ErrorModel::UnknownAction(text@),
        }
    }
}

// ---------------------------------------------------------------------------
// Numbers and keys
// ---------------------------------------------------------------------------

/// The number that a text writes, or an error that says what it stands for.
pub open spec fn number_of(s: Seq<char>, what: Seq<char>) -> Result<i64, ErrorModel> {
    match fields::number(s) {
        Some(v) => Ok(v),
        None => Err(ErrorModel::InvalidNumber(what, fields::trimmed(s))),
    }
}

/// The number that follows a key.
pub open spec fn keyed_number(s: Seq<char>, key: Seq<char>) -> Result<i64, ErrorModel> {
    match fields::after_prefix(s, key.push('=')) {
        Some(v) => number_of(v, key),
        None => Err(ErrorModel::MissingKey(key, s)),
    }
}

/// Reads a number.
fn parse_int(s: &str, what: &'static str) -> (r: Result<i64, WatchError>)
    ensures
        match r {
            Ok(v) => number_of(s@, what@) == Ok::<i64, ErrorModel>(v),
            Err(e) => number_of(s@, what@) == Err::<i64, ErrorModel>(e.view()),
        },
{
    match fields::read_number(s) {
        Some(v) => Ok(v),
        None => Err(WatchError::InvalidNumber { what, text: fields::trim(s) }),
    }
}

/// Takes a key off a text.
fn require_kv(s: &str, key: &'static str) -> (r: Result<String, WatchError>)
    ensures
        match r {
            Ok(v) => fields::after_prefix(s@, key@.push('=')) == Some(v@),
            Err(e) => fields::after_prefix(s@, key@.push('=')) is None && e.view()
                == ErrorModel::MissingKey(key@, s@),
        },
{
    let mut prefix = String::new();
    prefix.append(key);
    prefix.push('=');
    assert(prefix@ =~= key@.push('='));
    match fields::strip(s, prefix.as_str()) {
        Some(v) => Ok(v),
        None => Err(WatchError::MissingKey { key, text: s.to_string() }),
    }
}

/// Reads the number that follows a key.
fn parse_keyed(s: &str, key: &'static str) -> (r: Result<i64, WatchError>)
    ensures
        match r {
            Ok(v) => keyed_number(s@, key@) == Ok::<i64, ErrorModel>(v),
            Err(e) => keyed_number(s@, key@) == Err::<i64, ErrorModel>(e.view()),
        },
{
    match require_kv(s, key) {
        Ok(v) => parse_int(v.as_str(), key),
        Err(e) => Err(e),
    }
}

// ---------------------------------------------------------------------------
// Tests of memory
// ---------------------------------------------------------------------------

/// The address and byte of a test.
pub open spec fn byte_test(addr: Seq<char>, val: Seq<char>) -> Result<(i32, u8), ErrorModel> {
    match number_of(addr, "ADDR"@) {
        Err(e) => Err(e),
        Ok(a) => match number_of(val, "VAL"@) {
            Err(e) => Err(e),
            Ok(v) => Ok((a as i32, v as u8)),
        },
    }
}

/// The pattern `BASE:STRIDE:WINDOW` with a needle.
pub open spec fn pattern_of(head: Seq<char>, needle: Seq<char>) -> Result<
    PredicateModel,
    ErrorModel,
> {
    let parts = fields::fields(head, ':');
    if parts.len() != 3 {
        Err(ErrorModel::PatternFields(head))
    } else {
        match number_of(parts[0], "BASE"@) {
            Err(e) => Err(e),
            Ok(base) => match number_of(parts[1], "STRIDE"@) {
                Err(e) => Err(e),
                Ok(stride) => match number_of(parts[2], "WINDOW"@) {
                    Err(e) => Err(e),
                    Ok(window) => Ok(
                        PredicateModel::Pattern {
                            base: base as i32,
                            stride: stride as u32,
                            window: window as u32,
                            needle: vstd::utf8::encode_utf8(needle),
                        },
                    ),
                },
            },
        }
    }
}

/// The test that a text writes.
pub open spec fn test_of(tok: Seq<char>) -> Result<PredicateModel, ErrorModel> {
    match fields::after_prefix(tok, "pattern@"@) {
        Some(rest) => match fields::cut(rest, "="@) {
            Some((head, needle)) => pattern_of(head, needle),
            None => Err(ErrorModel::MissingNeedle(tok)),
        },
        None => match fields::cut(tok, "!="@) {
            Some((a, v)) => match byte_test(a, v) {
                Ok((addr, val)) => Ok(PredicateModel::ByteNe { addr, val }),
                Err(e) => Err(e),
            },
            None => match fields::cut(tok, "="@) {
                Some((a, v)) => match byte_test(a, v) {
                    Ok((addr, val)) => Ok(PredicateModel::ByteEq { addr, val }),
                    Err(e) => Err(e),
                },
                None => Err(ErrorModel::UnknownTest(tok)),
            },
        },
    }
}

/// Reads the address and byte of a test.
fn parse_byte_test(addr: &str, val: &str) -> (r: Result<(i32, u8), WatchError>)
    ensures
        match r {
            Ok(v) => byte_test(addr@, val@) == Ok::<(i32, u8), ErrorModel>(v),
            Err(e) => byte_test(addr@, val@) == Err::<(i32, u8), ErrorModel>(e.view()),
        },
{
    match parse_int(addr, "ADDR") {
        Err(e) => Err(e),
        Ok(a) => match parse_int(val, "VAL") {
            Err(e) => Err(e),
            Ok(v) => Ok((#[verifier::truncate] (a as i32), #[verifier::truncate] (v as u8))),
        },
    }
}

/// Reads `BASE:STRIDE:WINDOW`.
fn parse_pattern(head: &str, needle: &str) -> (r: Result<Predicate, WatchError>)
    ensures
        match r {
            Ok(v) => pattern_of(head@, needle@) == Ok::<PredicateModel, ErrorModel>(v.view()),
            Err(e) => pattern_of(head@, needle@) == Err::<PredicateModel, ErrorModel>(e.view()),
        },
{
    let parts: Vec<String> = fields::split(head, ':');
    assert(fields::fields(head@, ':').len() == parts@.len());
    if parts.len() != 3 {
        return Err(WatchError::PatternFields { text: head.to_string() });
    }
    assert(fields::fields(head@, ':')[0] == parts@[0]@);
    assert(fields::fields(head@, ':')[1] == parts@[1]@);
    assert(fields::fields(head@, ':')[2] == parts@[2]@);
    match parse_int(parts[0].as_str(), "BASE") {
        Err(e) => Err(e),
        Ok(base) => match parse_int(parts[1].as_str(), "STRIDE") {
            Err(e) => Err(e),
            Ok(stride) => match parse_int(parts[2].as_str(), "WINDOW") {
                Err(e) => Err(e),
                Ok(window) => Ok(
                    Predicate::BytePatternAt {
                        base: #[verifier::truncate]
                        (base as i32),
                        stride: #[verifier::truncate]
                        (stride as u32),
                        max_window: #[verifier::truncate]
                        (window as u32),
                        needle: needle.as_bytes_vec(),
                    },
                ),
            },
        },
    }
}

/// Reads a test.
fn parse_predicate(tok: &str) -> (r: Result<Predicate, WatchError>)
    ensures
        match r {
            Ok(v) => test_of(tok@) == Ok::<PredicateModel, ErrorModel>(v.view()),
            Err(e) => test_of(tok@) == Err::<PredicateModel, ErrorModel>(e.view()),
        },
{
    proof {
        reveal_strlit("=");
        reveal_strlit("!=");
    }
    match fields::strip(tok, "pattern@") {
        Some(rest) => match fields::cut_at(rest.as_str(), "=") {
            Some((head, needle)) => parse_pattern(head.as_str(), needle.as_str()),
            None => Err(WatchError::MissingNeedle { text: tok.to_string() }),
        },
        None => match fields::cut_at(tok, "!=") {
            Some((a, v)) => match parse_byte_test(a.as_str(), v.as_str()) {
                Ok((addr, val)) => Ok(Predicate::ByteNe { addr, val }),
                Err(e) => Err(e),
            },
            None => match fields::cut_at(tok, "=") {
                Some((a, v)) => match parse_byte_test(a.as_str(), v.as_str()) {
                    Ok((addr, val)) => Ok(Predicate::ByteEq { addr, val }),
                    Err(e) => Err(e),
                },
                None => Err(WatchError::UnknownTest { text: tok.to_string() }),
            },
        },
    }
}

// ---------------------------------------------------------------------------
// Actions
// ---------------------------------------------------------------------------

/// The action `setvar=` with its fields.
pub open spec fn setvar_of(rest: Seq<char>) -> Result<ActionModel, ErrorModel> {
    let parts = fields::fields(rest, ',');
    if parts.len() != 2 {
        Err(ErrorModel::ActionFields("setvar"@, rest))
    } else {
        match number_of(parts[1], "VALUE"@) {
            Err(e) => Err(e),
            Ok(value) => Ok(ActionModel::SetVar { name: parts[0], value: value as i32 }),
        }
    }
}

/// The number of ticks that a pulse holds, which is not 0.
pub open spec fn hold_of(text: Seq<char>, action: Seq<char>, rest: Seq<char>) -> Result<
    u32,
    ErrorModel,
> {
    match number_of(text, "HOLD_TICKS"@) {
        Err(e) => Err(e),
        Ok(hold) => if hold as u32 == 0 {
            Err(ErrorModel::ZeroHold(action, rest))
        } else {
            Ok(hold as u32)
        },
    }
}

/// The action `setvar_pulse=` with its fields.
pub open spec fn setvar_pulse_of(rest: Seq<char>) -> Result<ActionModel, ErrorModel> {
    let parts = fields::fields(rest, ',');
    if parts.len() != 3 {
        Err(ErrorModel::ActionFields("setvar_pulse"@, rest))
    } else {
        match number_of(parts[1], "VALUE"@) {
            Err(e) => Err(e),
            Ok(value) => match hold_of(parts[2], "setvar_pulse"@, rest) {
                Err(e) => Err(e),
                Ok(hold) => Ok(
                    ActionModel::SetVarPulse { name: parts[0], value: value as i32, hold },
                ),
            },
        }
    }
}

/// The action `pseudo_pulse=` with its fields.
pub open spec fn pseudo_pulse_of(rest: Seq<char>) -> Result<ActionModel, ErrorModel> {
    let parts = fields::fields(rest, ',');
    if parts.len() != 3 {
        Err(ErrorModel::ActionFields("pseudo_pulse"@, rest))
    } else {
        match hold_of(parts[2], "pseudo_pulse"@, rest) {
            Err(e) => Err(e),
            Ok(hold) => Ok(
                ActionModel::PseudoPulse { pseudo: parts[0], selector: parts[1], hold },
            ),
        }
    }
}

/// The action `dump=` with its fields. All that follows the second `,` is the path.
pub open spec fn dump_of(rest: Seq<char>) -> Result<ActionModel, ErrorModel> {
    let parts = fields::fields(rest, ',');
    if parts.len() < 2 {
        Err(ErrorModel::ActionFields("dump"@, rest))
    } else {
        match number_of(parts[0], "ADDR"@) {
            Err(e) => Err(e),
            Ok(addr) => match number_of(parts[1], "LEN"@) {
                Err(e) => Err(e),
                Ok(len) => Ok(
                    ActionModel::Dump {
                        addr: addr as i32,
                        len: len as u32,
                        path: if parts.len() == 2 {
                            "dump_{tick}.bin"@
                        } else {
                            fields::joined(parts.subrange(2, parts.len() as int), ',')
                        },
                    },
                ),
            },
        }
    }
}

/// The action that a text writes.
pub open spec fn action_of(s: Seq<char>) -> Result<ActionModel, ErrorModel> {
    let tok = fields::trimmed(s);
    if tok == "emit"@ {
        Ok(ActionModel::Emit)
    } else if tok == "halt"@ {
        Ok(ActionModel::Halt)
    } else if text::starts_with(tok, "setvar="@) {
        setvar_of(text::dropped(tok, "setvar="@.len() as int))
    } else if text::starts_with(tok, "setvar_pulse="@) {
        setvar_pulse_of(text::dropped(tok, "setvar_pulse="@.len() as int))
    } else if text::starts_with(tok, "pseudo_pulse="@) {
        pseudo_pulse_of(text::dropped(tok, "pseudo_pulse="@.len() as int))
    } else if text::starts_with(tok, "dump="@) {
        dump_of(text::dropped(tok, "dump="@.len() as int))
    } else if text::starts_with(tok, "snapshot="@) {
        Ok(ActionModel::Snapshot { path: text::dropped(tok, "snapshot="@.len() as int) })
    } else if tok == "snapshot"@ {
        Ok(ActionModel::Snapshot { path: "snapshot_{tick}.bin"@ })
    } else {
        Err(ErrorModel::UnknownAction(tok))
    }
}

/// The actions that texts write, or the first error.
pub open spec fn actions_of(toks: Seq<Seq<char>>) -> Result<Seq<ActionModel>, ErrorModel>
    decreases toks.len(),
{
    if toks.len() == 0 {
        Ok(Seq::empty())
    } else {
        match actions_of(toks.drop_last()) {
            Err(e) => Err(e),
            Ok(before) => match action_of(toks.last()) {
                Err(e) => Err(e),
                Ok(a) => Ok(before.push(a)),
            },
        }
    }
}

/// Reads the fields of `setvar=`.
fn parse_setvar(rest: &str) -> (r: Result<Action, WatchError>)
    ensures
        match r {
            Ok(v) => setvar_of(rest@) == Ok::<ActionModel, ErrorModel>(v.view()),
            Err(e) => setvar_of(rest@) == Err::<ActionModel, ErrorModel>(e.view()),
        },
{
    let mut parts: Vec<String> = fields::split(rest, ',');
    let ghost all = fields::fields(rest@, ',');
    assert(all.len() == parts@.len());
    if parts.len() != 2 {
        return Err(WatchError::ActionFields { action: "setvar", text: rest.to_string() });
    }
    assert(all[0] == parts@[0]@);
    assert(all[1] == parts@[1]@);
    match parse_int(parts[1].as_str(), "VALUE") {
        Err(e) => Err(e),
        Ok(value) => Ok(
            Action::SetVar {
                name: parts.remove(0),
                value: #[verifier::truncate]
                (value as i32),
            },
        ),
    }
}

/// Reads the number of ticks that a pulse holds.
fn parse_hold(text: &str, action: &'static str, rest: &str) -> (r: Result<u32, WatchError>)
    ensures
        match r {
            Ok(v) => hold_of(text@, action@, rest@) == Ok::<u32, ErrorModel>(v),
            Err(e) => hold_of(text@, action@, rest@) == Err::<u32, ErrorModel>(e.view()),
        },
{
    match parse_int(text, "HOLD_TICKS") {
        Err(e) => Err(e),
        Ok(v) => {
            let hold: u32 = #[verifier::truncate]
            (v as u32);
            if hold == 0 {
                Err(WatchError::ZeroHold { action, text: rest.to_string() })
            } else {
                Ok(hold)
            }
        },
    }
}

/// Reads the fields of `setvar_pulse=`.
fn parse_setvar_pulse(rest: &str) -> (r: Result<Action, WatchError>)
    ensures
        match r {
            Ok(v) => setvar_pulse_of(rest@) == Ok::<ActionModel, ErrorModel>(v.view()),
            Err(e) => setvar_pulse_of(rest@) == Err::<ActionModel, ErrorModel>(e.view()),
        },
{
    let mut parts: Vec<String> = fields::split(rest, ',');
    let ghost all = fields::fields(rest@, ',');
    assert(all.len() == parts@.len());
    if parts.len() != 3 {
        return Err(WatchError::ActionFields { action: "setvar_pulse", text: rest.to_string() });
    }
    assert(all[0] == parts@[0]@);
    assert(all[1] == parts@[1]@);
    assert(all[2] == parts@[2]@);
    match parse_int(parts[1].as_str(), "VALUE") {
        Err(e) => Err(e),
        Ok(value) => match parse_hold(parts[2].as_str(), "setvar_pulse", rest) {
            Err(e) => Err(e),
            Ok(hold_ticks) => Ok(
                Action::SetVarPulse {
                    name: parts.remove(0),
                    value: #[verifier::truncate]
                    (value as i32),
                    hold_ticks,
                },
            ),
        },
    }
}

/// Reads the fields of `pseudo_pulse=`.
fn parse_pseudo_pulse(rest: &str) -> (r: Result<Action, WatchError>)
    ensures
        match r {
            Ok(v) => pseudo_pulse_of(rest@) == Ok::<ActionModel, ErrorModel>(v.view()),
            Err(e) => pseudo_pulse_of(rest@) == Err::<ActionModel, ErrorModel>(e.view()),
        },
{
    let mut parts: Vec<String> = fields::split(rest, ',');
    let ghost all = fields::fields(rest@, ',');
    assert(all.len() == parts@.len());
    if parts.len() != 3 {
        return Err(WatchError::ActionFields { action: "pseudo_pulse", text: rest.to_string() });
    }
    assert(all[0] == parts@[0]@);
    assert(all[1] == parts@[1]@);
    assert(all[2] == parts@[2]@);
    match parse_hold(parts[2].as_str(), "pseudo_pulse", rest) {
        Err(e) => Err(e),
        Ok(hold_ticks) => {
            let selector: String = parts.remove(1);
            Ok(Action::PseudoActivePulse { pseudo: parts.remove(0), selector, hold_ticks })
        },
    }
}

/// Reads the fields of `dump=`.
fn parse_dump(rest: &str) -> (r: Result<Action, WatchError>)
    ensures
        match r {
            Ok(v) => dump_of(rest@) == Ok::<ActionModel, ErrorModel>(v.view()),
            Err(e) => dump_of(rest@) == Err::<ActionModel, ErrorModel>(e.view()),
        },
{
    let parts: Vec<String> = fields::split(rest, ',');
    let ghost all = fields::fields(rest@, ',');
    assert(all.len() == parts@.len());
    if parts.len() < 2 {
        return Err(WatchError::ActionFields { action: "dump", text: rest.to_string() });
    }
    assert(all[0] == parts@[0]@);
    assert(all[1] == parts@[1]@);
    let path_template: String = if parts.len() == 2 {
        "dump_{tick}.bin".to_string()
    } else {
        fields::join(&parts, 2, parts.len(), ',')
    };
    match parse_int(parts[0].as_str(), "ADDR") {
        Err(e) => Err(e),
        Ok(addr) => match parse_int(parts[1].as_str(), "LEN") {
            Err(e) => Err(e),
            Ok(len) => Ok(
                Action::DumpMemRange {
                    addr: #[verifier::truncate]
                    (addr as i32),
                    len: #[verifier::truncate]
                    (len as u32),
                    path_template,
                },
            ),
        },
    }
}

/// Reads an action.
fn parse_action(s: &str) -> (r: Result<Action, WatchError>)
    ensures
        match r {
            Ok(v) => action_of(s@) == Ok::<ActionModel, ErrorModel>(v.view()),
            Err(e) => action_of(s@) == Err::<ActionModel, ErrorModel>(e.view()),
        },
{
    let tok: String = fields::trim(s);
    let t: &str = tok.as_str();
    if text::same(t, "emit") {
        return Ok(Action::Emit);
    }
    if text::same(t, "halt") {
        return Ok(Action::Halt);
    }
    if let Some(rest) = fields::strip(t, "setvar=") {
        return parse_setvar(rest.as_str());
    }
    if let Some(rest) = fields::strip(t, "setvar_pulse=") {
        return parse_setvar_pulse(rest.as_str());
    }
    if let Some(rest) = fields::strip(t, "pseudo_pulse=") {
        return parse_pseudo_pulse(rest.as_str());
    }
    if let Some(rest) = fields::strip(t, "dump=") {
        return parse_dump(rest.as_str());
    }
    if let Some(rest) = fields::strip(t, "snapshot=") {
        return Ok(Action::Snapshot { path_template: rest });
    }
    if text::same(t, "snapshot") {
        return Ok(Action::Snapshot { path_template: "snapshot_{tick}.bin".to_string() });
    }
    Err(WatchError::UnknownAction { text: tok })
}

/// The values of a list of actions.
pub open spec fn actions_view(v: Seq<Action>) -> Seq<ActionModel> {
    Seq::new(v.len(), |i: int| v[i].view())
}

/// Splits a list of actions at `+`, and leaves out the empty ones.
fn split_actions(s: &str) -> (r: Vec<String>)
    ensures
        text::views(r@) == fields::nonempty(fields::fields(s@, '+')),
{
    let parts: Vec<String> = fields::split(s, '+');
    fields::keep_nonempty(&parts)
}

/// Splits a list of tests at `,`, trims them, and leaves out the empty ones.
fn split_tests(s: &str) -> (r: Vec<String>)
    ensures
        text::views(r@) == fields::tokens(fields::fields(s@, ',')),
{
    let parts: Vec<String> = fields::split(s, ',');
    fields::keep_tokens(&parts)
}

/// Reads a list of actions.
fn parse_actions(toks: &Vec<String>) -> (r: Result<Vec<Action>, WatchError>)
    ensures
        match r {
            Ok(v) => actions_of(text::views(toks@)) == Ok::<Seq<ActionModel>, ErrorModel>(
                actions_view(v@),
            ),
            Err(e) => actions_of(text::views(toks@)) == Err::<
                Seq<ActionModel>,
                ErrorModel,
            >(e.view()),
        },
{
    let ghost all = text::views(toks@);
    let mut out: Vec<Action> = Vec::new();
    let mut i: usize = 0;
    assert(all.subrange(0, 0) =~= Seq::<Seq<char>>::empty());
    assert(actions_view(out@) =~= Seq::<ActionModel>::empty());
    while i < toks.len()
        invariant
            i <= toks@.len(),
            all == text::views(toks@),
            actions_of(all.subrange(0, i as int)) == Ok::<Seq<ActionModel>, ErrorModel>(
                actions_view(out@),
            ),
        decreases toks@.len() - i,
    {
        assert(all.subrange(0, i + 1).drop_last() =~= all.subrange(0, i as int));
        assert(all.subrange(0, i + 1).last() == toks@[i as int]@);
        match parse_action(toks[i].as_str()) {
            Err(e) => {
                proof {
                    lemma_first_error(all, i + 1);
                }
                return Err(e);
            },
            Ok(a) => {
                let ghost before = out@;
                let ghost value = a.view();
                out.push(a);
                assert(actions_view(out@) =~= actions_view(before).push(value));
            },
        }
        i += 1;
    }
    assert(all.subrange(0, i as int) =~= all);
    Ok(out)
}

/// An error among the first actions is the error of the list.
proof fn lemma_first_error(toks: Seq<Seq<char>>, n: int)
    requires
        0 <= n <= toks.len(),
        actions_of(toks.subrange(0, n)) is Err,
    ensures
        actions_of(toks) == actions_of(toks.subrange(0, n)),
    decreases toks.len(),
{
    if n == toks.len() {
        assert(toks.subrange(0, n) =~= toks);
    } else {
        assert(toks.drop_last().subrange(0, n) =~= toks.subrange(0, n));
        lemma_first_error(toks.drop_last(), n);
    }
}

// ---------------------------------------------------------------------------
// Gate, samples and actions
// ---------------------------------------------------------------------------

/// What follows a watch's condition.
#[verifier::ext_equal]
pub struct SuffixModel {
    pub gate: Option<Seq<char>>,
    pub samples: Seq<Seq<char>>,
    pub actions: Seq<ActionModel>,
}

/// Does a field start a gate, a sample list or an action list?
pub open spec fn starts_suffix(s: Seq<char>) -> bool {
    ||| text::starts_with(s, "gate="@)
    ||| text::starts_with(s, "sample="@)
    ||| text::starts_with(s, "then="@)
}

/// The index of the first field from `i` on that starts a suffix.
pub open spec fn suffix_start(parts: Seq<Seq<char>>, i: int) -> int
    decreases parts.len() - i,
{
    if i >= parts.len() || starts_suffix(parts[i]) {
        i
    } else {
        suffix_start(parts, i + 1)
    }
}

/// Fields as suffixes. A field that starts none belongs to the action list before it,
/// and is left out behind a gate or a sample list.
pub open spec fn suffixes(parts: Seq<Seq<char>>) -> Seq<Seq<char>>
    decreases parts.len(),
{
    if parts.len() == 0 {
        Seq::empty()
    } else {
        let before = suffixes(parts.drop_last());
        if starts_suffix(parts.last()) {
            before.push(parts.last())
        } else if before.len() > 0 && text::starts_with(before.last(), "then="@) {
            before.drop_last().push(before.last().push(':') + parts.last())
        } else {
            before
        }
    }
}

/// What one more suffix adds.
pub open spec fn with_suffix(m: SuffixModel, s: Seq<char>) -> Result<SuffixModel, ErrorModel> {
    match fields::after_prefix(s, "gate="@) {
        Some(g) => Ok(SuffixModel { gate: Some(g), ..m }),
        None => match fields::after_prefix(s, "sample="@) {
            Some(v) => Ok(SuffixModel { samples: fields::tokens(fields::fields(v, ',')), ..m }),
            None => match fields::after_prefix(s, "then="@) {
                Some(a) => match actions_of(fields::nonempty(fields::fields(a, '+'))) {
                    Ok(list) => Ok(SuffixModel { actions: m.actions + list, ..m }),
                    Err(e) => Err(e),
                },
                None => Ok(m),
            },
        },
    }
}

/// What suffixes say: the last gate, the last sample list, and all actions.
pub open spec fn suffix_of(list: Seq<Seq<char>>) -> Result<SuffixModel, ErrorModel>
    decreases list.len(),
{
    if list.len() == 0 {
        Ok(SuffixModel { gate: None, samples: Seq::empty(), actions: Seq::empty() })
    } else {
        match suffix_of(list.drop_last()) {
            Err(e) => Err(e),
            Ok(m) => with_suffix(m, list.last()),
        }
    }
}

/// An error among the first suffixes is the error of the list.
proof fn lemma_first_suffix_error(list: Seq<Seq<char>>, n: int)
    requires
        0 <= n <= list.len(),
        suffix_of(list.subrange(0, n)) is Err,
    ensures
        suffix_of(list) == suffix_of(list.subrange(0, n)),
    decreases list.len(),
{
    if n == list.len() {
        assert(list.subrange(0, n) =~= list);
    } else {
        assert(list.drop_last().subrange(0, n) =~= list.subrange(0, n));
        lemma_first_suffix_error(list.drop_last(), n);
    }
}

/// A gate, a sample list and actions.
struct Suffix {
    gate: Option<String>,
    samples: Vec<String>,
    actions: Vec<Action>,
}

impl Suffix {
    spec fn view(&self) -> SuffixModel {
        SuffixModel {
            gate: text::maybe_view(self.gate),
            samples: text::views(self.samples@),
            actions: actions_view(self.actions@),
        }
    }
}

/// Does a field start a suffix?
fn is_suffix(s: &str) -> (r: bool)
    ensures
        r == starts_suffix(s@),
{
    text::begins(s, "gate=") || text::begins(s, "sample=") || text::begins(s, "then=")
}

/// Finds the first field from `from` on that starts a suffix.
fn find_suffix(parts: &Vec<String>, from: usize) -> (r: usize)
    requires
        from <= parts@.len(),
    ensures
        from <= r <= parts@.len(),
        r == suffix_start(text::views(parts@), from as int),
{
    let mut i: usize = from;
    while i < parts.len()
        invariant
            from <= i <= parts@.len(),
            suffix_start(text::views(parts@), from as int) == suffix_start(
                text::views(parts@),
                i as int,
            ),
        decreases parts@.len() - i,
    {
        if is_suffix(parts[i].as_str()) {
            return i;
        }
        i += 1;
    }
    i
}

/// Gathers the fields from `from` on into suffixes.
fn gather_suffixes(parts: &Vec<String>, from: usize) -> (r: Vec<String>)
    requires
        from <= parts@.len(),
    ensures
        text::views(r@) == suffixes(
            text::views(parts@).subrange(from as int, parts@.len() as int),
        ),
{
    let ghost all = text::views(parts@).subrange(from as int, parts@.len() as int);
    let mut out: Vec<String> = Vec::new();
    let mut i: usize = from;
    assert(all.subrange(0, 0) =~= Seq::<Seq<char>>::empty());
    assert(text::views(out@) =~= Seq::<Seq<char>>::empty());
    while i < parts.len()
        invariant
            from <= i <= parts@.len(),
            all == text::views(parts@).subrange(from as int, parts@.len() as int),
            text::views(out@) == suffixes(all.subrange(0, i - from)),
        decreases parts@.len() - i,
    {
        let ghost before = text::views(out@);
        assert(all.subrange(0, i + 1 - from).drop_last() =~= all.subrange(0, i - from));
        assert(all.subrange(0, i + 1 - from).last() == parts@[i as int]@);
        if is_suffix(parts[i].as_str()) {
            out.push(parts[i].clone());
            assert(text::views(out@) =~= before.push(parts@[i as int]@));
        } else if out.len() > 0 && text::begins(out[out.len() - 1].as_str(), "then=") {
            let ghost listed = out@;
            assert(before.last() == listed.last()@);
            let mut last: String = match out.pop() {
                Some(t) => t,
                None => String::new(),
            };
            assert(last@ == before.last());
            last.push(':');
            last.append(parts[i].as_str());
            let ghost now = last@;
            out.push(last);
            assert(text::views(out@) =~= before.drop_last().push(now));
        }
        i += 1;
    }
    assert(all.subrange(0, i - from) =~= all);
    out
}

/// Adds a suffix.
fn add_suffix(m: &mut Suffix, s: &str) -> (r: Result<(), WatchError>)
    ensures
        match r {
            Ok(()) => with_suffix(old(m).view(), s@) == Ok::<SuffixModel, ErrorModel>(
                final(m).view(),
            ),
            Err(e) => with_suffix(old(m).view(), s@) == Err::<SuffixModel, ErrorModel>(e.view()),
        },
{
    if let Some(g) = fields::strip(s, "gate=") {
        m.gate = Some(g);
        return Ok(());
    }
    if let Some(v) = fields::strip(s, "sample=") {
        m.samples = split_tests(v.as_str());
        return Ok(());
    }
    if let Some(a) = fields::strip(s, "then=") {
        let toks: Vec<String> = split_actions(a.as_str());
        match parse_actions(&toks) {
            Err(e) => {
                return Err(e);
            },
            Ok(list) => {
                let mut list: Vec<Action> = list;
                let ghost before = m.actions@;
                let ghost added = list@;
                m.actions.append(&mut list);
                assert(m.actions@ =~= before + added);
                assert(actions_view(m.actions@) =~= actions_view(before) + actions_view(added));
            },
        }
    }
    Ok(())
}

/// Reads suffixes.
fn parse_suffixes(list: &Vec<String>) -> (r: Result<Suffix, WatchError>)
    ensures
        match r {
            Ok(m) => suffix_of(text::views(list@)) == Ok::<SuffixModel, ErrorModel>(
                m.view(),
            ),
            Err(e) => suffix_of(text::views(list@)) == Err::<SuffixModel, ErrorModel>(
                e.view(),
            ),
        },
{
    let ghost all = text::views(list@);
    let mut m = Suffix { gate: None, samples: Vec::new(), actions: Vec::new() };
    let mut i: usize = 0;
    proof {
        assert(all.subrange(0, 0) =~= Seq::<Seq<char>>::empty());
        assert(m.view().samples =~= Seq::<Seq<char>>::empty());
        assert(m.view().actions =~= Seq::<ActionModel>::empty());
    }
    while i < list.len()
        invariant
            i <= list@.len(),
            all == text::views(list@),
            suffix_of(all.subrange(0, i as int)) == Ok::<SuffixModel, ErrorModel>(m.view()),
        decreases list@.len() - i,
    {
        assert(all.subrange(0, i + 1).drop_last() =~= all.subrange(0, i as int));
        assert(all.subrange(0, i + 1).last() == list@[i as int]@);
        match add_suffix(&mut m, list[i].as_str()) {
            Err(e) => {
                proof {
                    lemma_first_suffix_error(all, i + 1);
                }
                return Err(e);
            },
            Ok(()) => {},
        }
        i += 1;
    }
    assert(all.subrange(0, i as int) =~= all);
    Ok(m)
}

// ---------------------------------------------------------------------------
// Kinds
// ---------------------------------------------------------------------------

/// The fields of a burst, read so far.
pub struct BurstModel {
    pub every: Option<u32>,
    pub count: Option<u32>,
}

/// What one more field of a burst says.
pub open spec fn with_burst_field(b: BurstModel, tok: Seq<char>) -> Result<
    BurstModel,
    ErrorModel,
> {
    let t = fields::trimmed(tok);
    match fields::after_prefix(t, "every="@) {
        Some(v) => match number_of(v, "every"@) {
            Ok(n) => Ok(BurstModel { every: Some(n as u32), ..b }),
            Err(e) => Err(e),
        },
        None => match fields::after_prefix(t, "count="@) {
            Some(v) => match number_of(v, "count"@) {
                Ok(n) => Ok(BurstModel { count: Some(n as u32), ..b }),
                Err(e) => Err(e),
            },
            None => if t.len() > 0 {
                Err(ErrorModel::UnknownBurstField(tok))
            } else {
                Ok(b)
            },
        },
    }
}

/// What the fields of a burst say.
pub open spec fn burst_fields(toks: Seq<Seq<char>>) -> Result<BurstModel, ErrorModel>
    decreases toks.len(),
{
    if toks.len() == 0 {
        Ok(BurstModel { every: None, count: None })
    } else {
        match burst_fields(toks.drop_last()) {
            Err(e) => Err(e),
            Ok(b) => with_burst_field(b, toks.last()),
        }
    }
}

/// The burst that a text writes.
pub open spec fn burst_of(s: Seq<char>) -> Result<KindModel, ErrorModel> {
    match burst_fields(fields::fields(s, ',')) {
        Err(e) => Err(e),
        Ok(b) => match b.every {
            None => Err(ErrorModel::MissingBurstField("every"@)),
            Some(every) => match b.count {
                None => Err(ErrorModel::MissingBurstField("count"@)),
                Some(count) => Ok(KindModel::Burst { every, count }),
            },
        },
    }
}

/// The tests of a condition; the word `repeat` is none.
pub open spec fn tests_of(toks: Seq<Seq<char>>) -> Result<Seq<PredicateModel>, ErrorModel>
    decreases toks.len(),
{
    if toks.len() == 0 {
        Ok(Seq::empty())
    } else {
        match tests_of(toks.drop_last()) {
            Err(e) => Err(e),
            Ok(before) => if toks.last() == "repeat"@ {
                Ok(before)
            } else {
                match test_of(toks.last()) {
                    Err(e) => Err(e),
                    Ok(t) => Ok(before.push(t)),
                }
            },
        }
    }
}

/// The condition that a text writes.
pub open spec fn cond_of(s: Seq<char>, name: Seq<char>) -> Result<KindModel, ErrorModel> {
    let toks = fields::tokens(fields::fields(s, ','));
    match tests_of(toks) {
        Err(e) => Err(e),
        Ok(tests) => if tests.len() == 0 {
            Err(ErrorModel::NoTests(name))
        } else {
            Ok(
                KindModel::Cond {
                    tests,
                    repeat: toks.contains("repeat"@),
                    fired: false,
                    held: false,
                },
            )
        },
    }
}

/// When the watch fires that a kind and its text write.
pub open spec fn kind_of(kind: Seq<char>, s: Seq<char>, name: Seq<char>) -> Result<
    KindModel,
    ErrorModel,
> {
    if kind == "stride"@ {
        match keyed_number(s, "every"@) {
            Ok(v) => Ok(KindModel::Stride { every: v as u32, last: 0 }),
            Err(e) => Err(e),
        }
    } else if kind == "burst"@ {
        burst_of(s)
    } else if kind == "at"@ {
        match keyed_number(s, "tick"@) {
            Ok(v) => Ok(KindModel::At { tick: v as u32 }),
            Err(e) => Err(e),
        }
    } else if kind == "edge"@ {
        match keyed_number(s, "addr"@) {
            Ok(v) => Ok(KindModel::Edge { addr: v as i32, last: 0, primed: false }),
            Err(e) => Err(e),
        }
    } else if kind == "cond"@ {
        cond_of(s, name)
    } else if kind == "halt"@ {
        match keyed_number(s, "addr"@) {
            Ok(v) => Ok(KindModel::Halt { addr: v as i32 }),
            Err(e) => Err(e),
        }
    } else {
        Err(ErrorModel::UnknownKind(kind))
    }
}

proof fn lemma_first_burst_error(toks: Seq<Seq<char>>, n: int)
    requires
        0 <= n <= toks.len(),
        burst_fields(toks.subrange(0, n)) is Err,
    ensures
        burst_fields(toks) == burst_fields(toks.subrange(0, n)),
    decreases toks.len(),
{
    if n == toks.len() {
        assert(toks.subrange(0, n) =~= toks);
    } else {
        assert(toks.drop_last().subrange(0, n) =~= toks.subrange(0, n));
        lemma_first_burst_error(toks.drop_last(), n);
    }
}

proof fn lemma_first_test_error(toks: Seq<Seq<char>>, n: int)
    requires
        0 <= n <= toks.len(),
        tests_of(toks.subrange(0, n)) is Err,
    ensures
        tests_of(toks) == tests_of(toks.subrange(0, n)),
    decreases toks.len(),
{
    if n == toks.len() {
        assert(toks.subrange(0, n) =~= toks);
    } else {
        assert(toks.drop_last().subrange(0, n) =~= toks.subrange(0, n));
        lemma_first_test_error(toks.drop_last(), n);
    }
}

/// Reads a burst.
fn parse_burst(s: &str) -> (r: Result<WatchKind, WatchError>)
    ensures
        match r {
            Ok(v) => burst_of(s@) == Ok::<KindModel, ErrorModel>(v.view()),
            Err(e) => burst_of(s@) == Err::<KindModel, ErrorModel>(e.view()),
        },
{
    let toks: Vec<String> = fields::split(s, ',');
    let ghost all = fields::fields(s@, ',');
    let mut every: Option<u32> = None;
    let mut count: Option<u32> = None;
    let mut i: usize = 0;
    assert(all.subrange(0, 0) =~= Seq::<Seq<char>>::empty());
    while i < toks.len()
        invariant
            i <= toks@.len(),
            all == text::views(toks@),
            all == fields::fields(s@, ','),
            burst_fields(all.subrange(0, i as int)) == Ok::<BurstModel, ErrorModel>(
                BurstModel { every, count },
            ),
        decreases toks@.len() - i,
    {
        let ghost now = all.subrange(0, i + 1);
        assert(now.drop_last() =~= all.subrange(0, i as int));
        assert(now.last() == toks@[i as int]@);
        let t: String = fields::trim(toks[i].as_str());
        if let Some(v) = fields::strip(t.as_str(), "every=") {
            match parse_int(v.as_str(), "every") {
                Err(e) => {
                    proof {
                        lemma_first_burst_error(all, i + 1);
                    }
                    return Err(e);
                },
                Ok(n) => {
                    every = Some(#[verifier::truncate] (n as u32));
                },
            }
        } else if let Some(v) = fields::strip(t.as_str(), "count=") {
            match parse_int(v.as_str(), "count") {
                Err(e) => {
                    proof {
                        lemma_first_burst_error(all, i + 1);
                    }
                    return Err(e);
                },
                Ok(n) => {
                    count = Some(#[verifier::truncate] (n as u32));
                },
            }
        } else if t.as_str().unicode_len() > 0 {
            proof {
                lemma_first_burst_error(all, i + 1);
            }
            return Err(WatchError::UnknownBurstField { text: toks[i].clone() });
        }
        i += 1;
    }
    assert(all.subrange(0, i as int) =~= all);
    match every {
        None => Err(WatchError::MissingBurstField { key: "every" }),
        Some(every) => match count {
            None => Err(WatchError::MissingBurstField { key: "count" }),
            Some(count) => Ok(WatchKind::Burst { every, count }),
        },
    }
}

/// Reads a condition.
fn parse_cond(s: &str, name: &str) -> (r: Result<WatchKind, WatchError>)
    ensures
        match r {
            Ok(v) => cond_of(s@, name@) == Ok::<KindModel, ErrorModel>(v.view()),
            Err(e) => cond_of(s@, name@) == Err::<KindModel, ErrorModel>(e.view()),
        },
{
    let toks: Vec<String> = split_tests(s);
    let ghost all = text::views(toks@);
    let mut tests: Vec<Predicate> = Vec::new();
    let mut repeat = false;
    let mut i: usize = 0;
    assert(all.subrange(0, 0) =~= Seq::<Seq<char>>::empty());
    assert(crate::script::predicates_view(tests@) =~= Seq::<PredicateModel>::empty());
    while i < toks.len()
        invariant
            i <= toks@.len(),
            all == text::views(toks@),
            all == fields::tokens(fields::fields(s@, ',')),
            tests_of(all.subrange(0, i as int)) == Ok::<Seq<PredicateModel>, ErrorModel>(
                crate::script::predicates_view(tests@),
            ),
            repeat == (exists|j: int| 0 <= j < i && #[trigger] all[j] == "repeat"@),
        decreases toks@.len() - i,
    {
        let ghost now = all.subrange(0, i + 1);
        assert(now.drop_last() =~= all.subrange(0, i as int));
        assert(now.last() == toks@[i as int]@);
        assert(all[i as int] == toks@[i as int]@);
        if text::same(toks[i].as_str(), "repeat") {
            repeat = true;
        } else {
            match parse_predicate(toks[i].as_str()) {
                Err(e) => {
                    proof {
                        lemma_first_test_error(all, i + 1);
                    }
                    return Err(e);
                },
                Ok(t) => {
                    let ghost before = tests@;
                    let ghost value = t.view();
                    tests.push(t);
                    assert(crate::script::predicates_view(tests@)
                        =~= crate::script::predicates_view(before).push(value));
                },
            }
        }
        i += 1;
    }
    assert(all.subrange(0, i as int) =~= all);
    assert(repeat == all.contains("repeat"@));
    if tests.len() == 0 {
        return Err(WatchError::NoTests { name: name.to_string() });
    }
    Ok(WatchKind::Cond { tests, repeat, fired: false, last_held: false })
}

/// Reads when a watch fires.
fn parse_kind(kind: &str, s: &str, name: &str) -> (r: Result<WatchKind, WatchError>)
    ensures
        match r {
            Ok(v) => kind_of(kind@, s@, name@) == Ok::<KindModel, ErrorModel>(v.view()),
            Err(e) => kind_of(kind@, s@, name@) == Err::<KindModel, ErrorModel>(e.view()),
        },
{
    if text::same(kind, "stride") {
        match parse_keyed(s, "every") {
            Ok(v) => Ok(
                WatchKind::Stride {
                    every: #[verifier::truncate]
                    (v as u32),
                    last_fired_at: 0,
                },
            ),
            Err(e) => Err(e),
        }
    } else if text::same(kind, "burst") {
        parse_burst(s)
    } else if text::same(kind, "at") {
        match parse_keyed(s, "tick") {
            Ok(v) => Ok(WatchKind::At { tick: #[verifier::truncate] (v as u32) }),
            Err(e) => Err(e),
        }
    } else if text::same(kind, "edge") {
        match parse_keyed(s, "addr") {
            Ok(v) => Ok(
                WatchKind::Edge {
                    addr: #[verifier::truncate]
                    (v as i32),
                    last: 0,
                    primed: false,
                },
            ),
            Err(e) => Err(e),
        }
    } else if text::same(kind, "cond") {
        parse_cond(s, name)
    } else if text::same(kind, "halt") {
        match parse_keyed(s, "addr") {
            Ok(v) => Ok(WatchKind::Halt { addr: #[verifier::truncate] (v as i32) }),
            Err(e) => Err(e),
        }
    } else {
        Err(WatchError::UnknownKind { text: kind.to_string() })
    }
}

// ---------------------------------------------------------------------------
// Watches
// ---------------------------------------------------------------------------

/// The watch that a text writes. Errors in its actions come before those in its
/// condition.
pub open spec fn watch_of(s: Seq<char>) -> Result<WatchModel, ErrorModel> {
    let parts = fields::fields(s, ':');
    if parts.len() < 3 {
        Err(ErrorModel::TooFewFields(s))
    } else if parts[0].len() == 0 {
        Err(ErrorModel::EmptyName(s))
    } else {
        let k = suffix_start(parts, 2);
        match suffix_of(suffixes(parts.subrange(k, parts.len() as int))) {
            Err(e) => Err(e),
            Ok(m) => match kind_of(parts[1], fields::joined(parts.subrange(2, k), ':'), parts[0]) {
                Err(e) => Err(e),
                Ok(kind) => Ok(
                    WatchModel {
                        name: parts[0],
                        kind,
                        gate: m.gate,
                        actions: m.actions,
                        samples: m.samples,
                    },
                ),
            },
        }
    }
}

/// Reads a watch.
pub fn parse_watch(spec: &str) -> (r: Result<WatchSpec, WatchError>)
    ensures
        match r {
            Ok(w) => watch_of(spec@) == Ok::<WatchModel, ErrorModel>(w.view()),
            Err(e) => watch_of(spec@) == Err::<WatchModel, ErrorModel>(e.view()),
        },
{
    let parts: Vec<String> = fields::split(spec, ':');
    let ghost all = fields::fields(spec@, ':');
    assert(all.len() == parts@.len());
    if parts.len() < 3 {
        return Err(WatchError::TooFewFields { text: spec.to_string() });
    }
    assert(all[0] == parts@[0]@);
    assert(all[1] == parts@[1]@);
    if parts[0].as_str().unicode_len() == 0 {
        return Err(WatchError::EmptyName { text: spec.to_string() });
    }
    let k: usize = find_suffix(&parts, 2);
    let list: Vec<String> = gather_suffixes(&parts, k);
    match parse_suffixes(&list) {
        Err(e) => Err(e),
        Ok(m) => {
            let payload: String = fields::join(&parts, 2, k, ':');
            match parse_kind(parts[1].as_str(), payload.as_str(), parts[0].as_str()) {
                Err(e) => Err(e),
                Ok(kind) => {
                    let Suffix { gate, samples, actions } = m;
                    Ok(
                        WatchSpec {
                            name: parts[0].clone(),
                            kind,
                            gate,
                            actions,
                            sample_vars: samples,
                        },
                    )
                },
            }
        },
    }
}

} // verus!
