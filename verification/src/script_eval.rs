//! Polling: which watches fire, and what their actions do.

use crate::script;
use crate::script::{
    Action, ActionModel, DumpModel, DumpSink, DumpedRange, EventModel, FileModel, FileWrite,
    KindModel, MeasurementEvent, PendingRelease, PendingReleaseKind, Predicate, PredicateModel,
    RegistryModel, ReleaseModel, TargetModel, WatchKind, WatchModel, WatchRegistry, WatchSpec,
};
use crate::state;
use crate::state::{State, StateModel};
use crate::text;
use vstd::prelude::*;

verus! {

// ---------------------------------------------------------------------------
// Tests of memory
// ---------------------------------------------------------------------------

/// The address `i` places behind `addr`, in 32 bits.
pub open spec fn place(addr: i32, i: int) -> i32 {
    (addr + i) as i32
}

/// Does the byte run `needle` stand at slot `slot`: byte `j` at slot `slot + j`,
/// slots being `stride` addresses apart?
pub open spec fn stands_at_slot(
    s: StateModel,
    base: i32,
    stride: u32,
    needle: Seq<u8>,
    slot: int,
) -> bool {
    forall|j: int|
        0 <= j < needle.len() ==> state::low_byte(s.read(place(base, (slot + j) * stride)))
            == #[trigger] needle[j]
}

/// Does a run of `length` bytes at slot `slot` end before the window does: is its
/// last byte among the first `window` addresses?
pub open spec fn in_window(window: u32, stride: u32, length: nat, slot: int) -> bool {
    0 <= slot && (slot + length - 1) * stride < window
}

/// The number of slots that begin in a window.
pub open spec fn slots_in(window: u32, stride: u32) -> int {
    (window + stride - 1) / stride as int
}

/// Does a test hold? An empty run stands everywhere, and no other run stands
/// where slots are no addresses apart.
pub open spec fn holds(p: PredicateModel, s: StateModel) -> bool {
    match p {
        PredicateModel::ByteEq { addr, val } => state::low_byte(s.read(addr)) == val,
        PredicateModel::ByteNe { addr, val } => state::low_byte(s.read(addr)) != val,
        PredicateModel::Pattern { base, stride, window, needle } => needle.len() == 0 || (stride
            > 0 && exists|slot: int|
            in_window(window, stride, needle.len(), slot) && #[trigger] stands_at_slot(
                s,
                base,
                stride,
                needle,
                slot,
            )),
    }
}

/// The state after reading a run at a slot from byte `j` on, up to the first
/// byte that differs.
pub open spec fn after_slot(
    s: StateModel,
    base: i32,
    stride: u32,
    needle: Seq<u8>,
    slot: int,
    j: int,
) -> StateModel
    decreases needle.len() - j,
{
    if j >= needle.len() {
        s
    } else {
        let addr = place(base, (slot + j) * stride);
        if state::low_byte(s.read(addr)) == needle[j] {
            after_slot(s.after_read(addr), base, stride, needle, slot, j + 1)
        } else {
            s.after_read(addr)
        }
    }
}

/// The state after looking for a run from slot `slot` on.
pub open spec fn after_search(
    s: StateModel,
    base: i32,
    stride: u32,
    needle: Seq<u8>,
    slots: int,
    slot: int,
) -> StateModel
    decreases slots - slot,
{
    if slot + needle.len() > slots || slot >= slots {
        s
    } else {
        let next = after_slot(s, base, stride, needle, slot, 0);
        if stands_at_slot(s, base, stride, needle, slot) {
            next
        } else {
            after_search(next, base, stride, needle, slots, slot + 1)
        }
    }
}

/// The state after deciding a test: the reads may have been logged.
pub open spec fn after_test(p: PredicateModel, s: StateModel) -> StateModel {
    match p {
        PredicateModel::ByteEq { addr, .. } => s.after_read(addr),
        PredicateModel::ByteNe { addr, .. } => s.after_read(addr),
        PredicateModel::Pattern { base, stride, window, needle } => if needle.len() == 0 || stride
            == 0 {
            s
        } else {
            after_search(s, base, stride, needle, slots_in(window, stride), 0)
        },
    }
}

/// Do all tests hold?
pub open spec fn all_hold(tests: Seq<PredicateModel>, s: StateModel) -> bool {
    forall|i: int| 0 <= i < tests.len() ==> holds(#[trigger] tests[i], s)
}

/// The state after deciding tests from `i` on, up to the first that fails.
pub open spec fn after_tests(tests: Seq<PredicateModel>, s: StateModel, i: int) -> StateModel
    decreases tests.len() - i,
{
    if i >= tests.len() {
        s
    } else if holds(tests[i], s) {
        after_tests(tests, after_test(tests[i], s), i + 1)
    } else {
        after_test(tests[i], s)
    }
}

/// Two states that differ in their read log only.
pub open spec fn same_but_log(a: StateModel, b: StateModel) -> bool {
    (StateModel { read_log: a.read_log, ..b }) == a
}

/// States that differ in their read log only read the same.
pub proof fn lemma_same_reads(a: StateModel, b: StateModel)
    requires
        same_but_log(a, b),
    ensures
        forall|addr: i32| #[trigger] a.read(addr) == b.read(addr),
{
    assert forall|addr: i32| #[trigger] a.read(addr) == b.read(addr) by {
        assert(a.vars == b.vars && a.cells == b.cells && a.pack == b.pack);
        assert(a.packed(addr as int) == b.packed(addr as int));
    }
}

/// A test holds in both or in neither of two states that differ in their read log
/// only.
pub proof fn lemma_same_holds(a: StateModel, b: StateModel, p: PredicateModel)
    requires
        same_but_log(a, b),
    ensures
        holds(p, a) == holds(p, b),
{
    lemma_same_reads(a, b);
    if let PredicateModel::Pattern { base, stride, window, needle } = p {
        assert forall|slot: int|
            #[trigger] stands_at_slot(a, base, stride, needle, slot) == stands_at_slot(
                b,
                base,
                stride,
                needle,
                slot,
            ) by {
            lemma_same_slot(a, b, base, stride, needle, slot);
        }
        if holds(p, a) && needle.len() > 0 {
            let slot = choose|slot: int|
                in_window(window, stride, needle.len(), slot) && #[trigger] stands_at_slot(
                    a,
                    base,
                    stride,
                    needle,
                    slot,
                );
            assert(stands_at_slot(b, base, stride, needle, slot));
        }
        if holds(p, b) && needle.len() > 0 {
            let slot = choose|slot: int|
                in_window(window, stride, needle.len(), slot) && #[trigger] stands_at_slot(
                    b,
                    base,
                    stride,
                    needle,
                    slot,
                );
            assert(stands_at_slot(a, base, stride, needle, slot));
        }
    }
}

proof fn lemma_same_slot(
    a: StateModel,
    b: StateModel,
    base: i32,
    stride: u32,
    needle: Seq<u8>,
    slot: int,
)
    requires
        same_but_log(a, b),
    ensures
        stands_at_slot(a, base, stride, needle, slot) == stands_at_slot(
            b,
            base,
            stride,
            needle,
            slot,
        ),
{
    lemma_same_reads(a, b);
    if stands_at_slot(a, base, stride, needle, slot) {
        assert forall|j: int| 0 <= j < needle.len() implies state::low_byte(
            b.read(place(base, (slot + j) * stride)),
        ) == #[trigger] needle[j] by {
            assert(a.read(place(base, (slot + j) * stride)) == b.read(
                place(base, (slot + j) * stride),
            ));
        }
    }
    if stands_at_slot(b, base, stride, needle, slot) {
        assert forall|j: int| 0 <= j < needle.len() implies state::low_byte(
            a.read(place(base, (slot + j) * stride)),
        ) == #[trigger] needle[j] by {
            assert(a.read(place(base, (slot + j) * stride)) == b.read(
                place(base, (slot + j) * stride),
            ));
        }
    }
}

/// Reads the byte `i` places behind `addr`.
fn read_place(state: &mut State, addr: i32, i: i64) -> (r: u8)
    requires
        old(state).wf(),
        0 <= i <= 0x2_0000_0000,
    ensures
        final(state).wf(),
        r == state::low_byte(old(state)@.read(place(addr, i as int))),
        final(state)@ == old(state)@.after_read(place(addr, i as int)),
{
    let at: i32 = (addr as i64 + i) as i32;
    (state.read_mem(at) & 0xFF) as u8
}

/// Compares a run with the bytes at a slot.
fn match_slot(state: &mut State, base: i32, stride: u32, needle: &Vec<u8>, slot: u64) -> (r: bool)
    requires
        old(state).wf(),
        stride > 0,
        (slot + needle@.len()) * stride <= 0x2_0000_0000,
    ensures
        final(state).wf(),
        r == stands_at_slot(old(state)@, base, stride, needle@, slot as int),
        final(state)@ == after_slot(old(state)@, base, stride, needle@, slot as int, 0),
        same_but_log(old(state)@, final(state)@),
{
    let ghost start = state@;
    let ghost goal = after_slot(start, base, stride, needle@, slot as int, 0);
    let n: usize = needle.len();
    let mut j: usize = 0;
    while j < n
        invariant
            j <= n == needle@.len(),
            state.wf(),
            stride > 0,
            (slot + needle@.len()) * stride <= 0x2_0000_0000,
            start == old(state)@,
            same_but_log(start, state@),
            goal == after_slot(start, base, stride, needle@, slot as int, 0),
            after_slot(state@, base, stride, needle@, slot as int, j as int) == goal,
            forall|k: int|
                0 <= k < j ==> state::low_byte(start.read(place(base, (slot + k) * stride)))
                    == #[trigger] needle@[k],
        decreases n - j,
    {
        assert((slot + j) * stride <= (slot + needle@.len()) * stride && slot + j <= (slot
            + needle@.len()) * stride) by (nonlinear_arith)
            requires
                j < needle@.len(),
                stride > 0,
                slot >= 0,
        ;
        proof {
            lemma_same_reads(start, state@);
        }
        let offset: i64 = ((slot + j as u64) * stride as u64) as i64;
        assert(offset == (slot + j) * stride);
        let byte: u8 = read_place(state, base, offset);
        if byte != needle[j] {
            assert(!stands_at_slot(start, base, stride, needle@, slot as int)) by {
                if stands_at_slot(start, base, stride, needle@, slot as int) {
                    assert(needle@[j as int] == byte);
                }
            }
            return false;
        }
        j += 1;
    }
    true
}

/// A run lies in a window exactly if there are slots enough for it.
proof fn lemma_slots_in(window: u32, stride: u32, length: nat)
    requires
        stride > 0,
        length > 0,
    ensures
        forall|slot: int|
            0 <= slot ==> (#[trigger] in_window(window, stride, length, slot) <==> slot + length
                <= slots_in(window, stride)),
{
    let q = slots_in(window, stride);
    let d = stride as int;
    vstd::arithmetic::div_mod::lemma_fundamental_div_mod(window + stride - 1, d);
    vstd::arithmetic::div_mod::lemma_mod_bound(window + stride - 1, d);
    assert forall|slot: int| 0 <= slot implies (#[trigger] in_window(window, stride, length, slot)
        <==> slot + length <= q) by {
        let x = slot + length;
        let w = window as int;
        if x <= q {
            assert((x - 1) * d < w) by (nonlinear_arith)
                requires
                    x <= q,
                    d > 0,
                    d * q <= w + d - 1,
            ;
        } else {
            assert((x - 1) * d >= w) by (nonlinear_arith)
                requires
                    x >= q + 1,
                    d > 0,
                    d * q + d > w + d - 1,
            ;
        }
    }
}

/// Looks for a run in a window.
fn search_window(state: &mut State, base: i32, stride: u32, window: u32, needle: &Vec<u8>) -> (r:
    bool)
    requires
        old(state).wf(),
        stride > 0,
        needle@.len() > 0,
    ensures
        final(state).wf(),
        r == exists|slot: int|
            in_window(window, stride, needle@.len(), slot) && #[trigger] stands_at_slot(
                old(state)@,
                base,
                stride,
                needle@,
                slot,
            ),
        final(state)@ == after_search(
            old(state)@,
            base,
            stride,
            needle@,
            slots_in(window, stride),
            0,
        ),
        same_but_log(old(state)@, final(state)@),
{
    let ghost start = state@;
    let slots: u64 = (window as u64 + stride as u64 - 1) / stride as u64;
    let n: u64 = needle.len() as u64;
    let ghost goal = after_search(start, base, stride, needle@, slots as int, 0);
    proof {
        lemma_slots_in(window, stride, n as nat);
    }
    if slots < n {
        return false;
    }
    let last: u64 = slots - n;
    let mut slot: u64 = 0;
    while slot <= last
        invariant
            slot <= last + 1,
            last + n == slots,
            slots == slots_in(window, stride),
            forall|k: int|
                0 <= k ==> (#[trigger] in_window(window, stride, n as nat, k) <==> k + n <= slots),
            n == needle@.len() > 0,
            state.wf(),
            stride > 0,
            start == old(state)@,
            same_but_log(start, state@),
            goal == after_search(start, base, stride, needle@, slots as int, 0),
            after_search(state@, base, stride, needle@, slots as int, slot as int) == goal,
            forall|k: int|
                0 <= k < slot ==> !#[trigger] stands_at_slot(start, base, stride, needle@, k),
        decreases last + 1 - slot,
    {
        assert(in_window(window, stride, n as nat, slot as int));
        assert((slot + n) * stride <= 0x2_0000_0000) by (nonlinear_arith)
            requires
                (slot + n - 1) * stride < window,
                window <= 0xffff_ffff,
                0 < stride <= 0xffff_ffff,
        ;
        proof {
            lemma_same_slot(start, state@, base, stride, needle@, slot as int);
        }
        if match_slot(state, base, stride, needle, slot) {
            assert(stands_at_slot(start, base, stride, needle@, slot as int));
            return true;
        }
        slot += 1;
    }
    false
}

/// Decides a test.
pub fn predicate_holds(p: &Predicate, state: &mut State) -> (r: bool)
    requires
        old(state).wf(),
    ensures
        final(state).wf(),
        r == holds(p.view(), old(state)@),
        final(state)@ == after_test(p.view(), old(state)@),
        same_but_log(old(state)@, final(state)@),
{
    match p {
        Predicate::ByteEq { addr, val } => {
            let byte: u8 = (state.read_mem(*addr) & 0xFF) as u8;
            byte == *val
        },
        Predicate::ByteNe { addr, val } => {
            let byte: u8 = (state.read_mem(*addr) & 0xFF) as u8;
            byte != *val
        },
        Predicate::BytePatternAt { base, stride, max_window, needle } => {
            if needle.len() == 0 {
                return true;
            }
            if *stride == 0 {
                return false;
            }
            search_window(state, *base, *stride, *max_window, needle)
        },
    }
}

/// Decides whether all tests hold.
fn tests_hold(tests: &Vec<Predicate>, state: &mut State) -> (r: bool)
    requires
        old(state).wf(),
    ensures
        final(state).wf(),
        r == all_hold(script::predicates_view(tests@), old(state)@),
        final(state)@ == after_tests(script::predicates_view(tests@), old(state)@, 0),
{
    let ghost all = script::predicates_view(tests@);
    let ghost start = state@;
    let ghost goal = after_tests(all, start, 0);
    let mut i: usize = 0;
    while i < tests.len()
        invariant
            i <= tests@.len(),
            state.wf(),
            all == script::predicates_view(tests@),
            start == old(state)@,
            same_but_log(start, state@),
            goal == after_tests(all, start, 0),
            after_tests(all, state@, i as int) == goal,
            forall|k: int| 0 <= k < i ==> holds(#[trigger] all[k], start),
        decreases tests@.len() - i,
    {
        assert(all[i as int] == tests@[i as int].view());
        proof {
            lemma_same_holds(start, state@, all[i as int]);
        }
        if !predicate_holds(&tests[i], state) {
            assert(!holds(all[i as int], start));
            return false;
        }
        i += 1;
    }
    true
}

// ---------------------------------------------------------------------------
// Firing
// ---------------------------------------------------------------------------

/// What looking at a firing condition comes to: whether it fires, what it
/// remembers, and the state after its reads.
#[verifier::ext_equal]
pub struct Decision {
    pub fires: bool,
    pub kind: KindModel,
    pub state: StateModel,
}

/// Looks at a firing condition.
pub open spec fn decided(kind: KindModel, s: StateModel, tick: u32) -> Decision {
    match kind {
        KindModel::Stride { every, last } => {
            let fires = every > 0 && tick > 0 && tick - last >= every;
            Decision {
                fires,
                kind: if fires {
                    KindModel::Stride { every, last: tick }
                } else {
                    kind
                },
                state: s,
            }
        },
        KindModel::Burst { every, count } => Decision {
            fires: every > 0 && tick % every < count,
            kind,
            state: s,
        },
        KindModel::At { tick: at } => Decision { fires: tick == at, kind, state: s },
        KindModel::Edge { addr, last, primed } => {
            let now = state::low_byte(s.read(addr));
            Decision {
                fires: primed && now != last,
                kind: KindModel::Edge { addr, last: now, primed: true },
                state: s.after_read(addr),
            }
        },
        KindModel::Cond { tests, repeat, fired, held } => if !repeat && fired {
            Decision { fires: false, kind, state: s }
        } else {
            let all = all_hold(tests, s);
            Decision {
                fires: all,
                kind: KindModel::Cond {
                    tests,
                    repeat,
                    fired: fired || (all && !repeat),
                    held: if all {
                        repeat || held
                    } else {
                        false
                    },
                },
                state: after_tests(tests, s, 0),
            }
        },
        KindModel::Halt { addr } => Decision {
            fires: state::low_byte(s.read(addr)) != 0,
            kind,
            state: s.after_read(addr),
        },
    }
}

/// Looks at a firing condition.
fn decide(kind: &mut WatchKind, state: &mut State, tick: u32) -> (r: bool)
    requires
        old(state).wf(),
    ensures
        final(state).wf(),
        decided(old(kind).view(), old(state)@, tick) == (Decision {
            fires: r,
            kind: final(kind).view(),
            state: final(state)@,
        }),
{
    match kind {
        WatchKind::Stride { every, last_fired_at } => {
            if *every == 0 || tick == 0 {
                return false;
            }
            if tick >= *last_fired_at && tick - *last_fired_at >= *every {
                *last_fired_at = tick;
                true
            } else {
                false
            }
        },
        WatchKind::Burst { every, count } => {
            if *every == 0 || *count == 0 {
                return false;
            }
            tick % *every < *count
        },
        WatchKind::At { tick: at } => *at == tick,
        WatchKind::Edge { addr, last, primed } => {
            let now: u8 = (state.read_mem(*addr) & 0xFF) as u8;
            let fires: bool = *primed && now != *last;
            *last = now;
            *primed = true;
            fires
        },
        WatchKind::Cond { tests, repeat, fired, last_held } => {
            if !*repeat && *fired {
                return false;
            }
            if tests_hold(tests, state) {
                if *repeat {
                    *last_held = true;
                } else {
                    *fired = true;
                }
                true
            } else {
                *last_held = false;
                false
            }
        },
        WatchKind::Halt { addr } => {
            let byte: u8 = (state.read_mem(*addr) & 0xFF) as u8;
            byte != 0
        },
    }
}

// ---------------------------------------------------------------------------
// Actions
// ---------------------------------------------------------------------------

/// A path with the tick and the watch's name filled in.
pub open spec fn rendered(template: Seq<char>, tick: u32, name: Seq<char>) -> Seq<char> {
    text::replaced(
        text::replaced(template, "{tick}"@, text::decimal_text(tick as nat)),
        "{name}"@,
        name,
    )
}

/// Fills the tick and the watch's name into a path.
pub fn render_template(template: &str, tick: u32, name: &str) -> (r: String)
    ensures
        r@ == rendered(template@, tick, name@),
{
    proof {
        reveal_strlit("{tick}");
        reveal_strlit("{name}");
    }
    let mut number = String::new();
    text::push_decimal(&mut number, tick as u64);
    assert(number@ =~= text::decimal_text(tick as nat));
    let first: String = text::replace_all(template, "{tick}", number.as_str());
    text::replace_all(first.as_str(), "{name}", name)
}

/// The circumstances of a poll that actions depend on.
#[verifier::ext_equal]
pub struct Occasion {
    pub tick: u32,
    pub name: Seq<char>,
    pub sink: DumpSink,
    pub pending: Seq<ReleaseModel>,
    pub released: Seq<TargetModel>,
}

/// What the actions of a watch have done so far.
#[verifier::ext_equal]
pub struct EffectsModel {
    pub state: StateModel,
    pub emits: bool,
    pub halts: bool,
    pub dumps: Seq<DumpModel>,
    pub releases: Seq<ReleaseModel>,
    pub files: Seq<FileModel>,
}

/// Is a pulse on a target waiting to end?
pub open spec fn waits(releases: Seq<ReleaseModel>, target: TargetModel) -> bool {
    exists|i: int| 0 <= i < releases.len() && (#[trigger] releases[i]).target == target
}

/// The bytes of a memory range.
pub open spec fn range_bytes(s: StateModel, addr: i32, len: u32) -> Seq<u8> {
    Seq::new(len as nat, |i: int| state::low_byte(s.read(place(addr, i))))
}

/// The state after reading a memory range from offset `i` on.
pub open spec fn after_range(s: StateModel, addr: i32, i: int, len: int) -> StateModel
    decreases len - i,
{
    if i >= len {
        s
    } else {
        after_range(s.after_read(place(addr, i)), addr, i + 1, len)
    }
}

impl EffectsModel {
    /// Hands bytes to the sink: into the event, or into a file whose path the
    /// event names. Either way there is an event.
    pub open spec fn dumped(
        self,
        o: Occasion,
        addr: i32,
        bytes: Seq<u8>,
        template: Seq<char>,
        tag: Seq<char>,
    ) -> EffectsModel {
        match o.sink {
            DumpSink::Memory => EffectsModel {
                emits: true,
                dumps: self.dumps.push(DumpModel { addr, bytes, path: None, tag }),
                ..self
            },
            DumpSink::File => {
                let path = rendered(template, o.tick, o.name);
                EffectsModel {
                    emits: true,
                    dumps: self.dumps.push(
                        DumpModel { addr, bytes: Seq::empty(), path: Some(path), tag },
                    ),
                    files: self.files.push(FileModel { name: o.name, path, bytes, tag }),
                    ..self
                }
            },
        }
    }

    /// May a pulse start on a target: no pulse on it waits to end, and none
    /// ended at the start of this poll?
    pub open spec fn may_pulse(self, o: Occasion, target: TargetModel) -> bool {
        !waits(o.pending, target) && !waits(self.releases, target) && !o.released.contains(target)
    }

    /// Schedules the end of a pulse.
    pub open spec fn scheduled(self, o: Occasion, target: TargetModel, hold: u32) -> EffectsModel {
        EffectsModel {
            releases: self.releases.push(
                ReleaseModel {
                    tick: if o.tick + hold > u32::MAX {
                        u32::MAX
                    } else {
                        (o.tick + hold) as u32
                    },
                    target,
                },
            ),
            ..self
        }
    }

    /// Performs one action.
    pub open spec fn performed(self, a: ActionModel, o: Occasion) -> EffectsModel {
        match a {
            ActionModel::Emit => EffectsModel { emits: true, ..self },
            ActionModel::Dump { addr, len, path } => EffectsModel {
                state: after_range(self.state, addr, 0, len as int),
                ..self
            }.dumped(o, addr, range_bytes(self.state, addr, len), path, "mem"@),
            ActionModel::Snapshot { path } => self.dumped(
                o,
                0,
                self.state.snapshot_bytes(),
                path,
                "snapshot"@,
            ),
            ActionModel::SetVar { name, value } => EffectsModel {
                state: self.state.with_var(name, value),
                ..self
            },
            ActionModel::SetVarPulse { name, value, hold } => if self.may_pulse(
                o,
                TargetModel::Var(name),
            ) {
                EffectsModel { state: self.state.with_var(name, value), ..self }.scheduled(
                    o,
                    TargetModel::Var(name),
                    hold,
                )
            } else {
                self
            },
            ActionModel::PseudoPulse { pseudo, selector, hold } => if self.may_pulse(
                o,
                TargetModel::Pseudo(pseudo, selector),
            ) {
                EffectsModel {
                    state: self.state.with_gate((pseudo, selector), true),
                    ..self
                }.scheduled(o, TargetModel::Pseudo(pseudo, selector), hold)
            } else {
                self
            },
            ActionModel::Halt => EffectsModel { halts: true, ..self },
        }
    }

    /// Performs actions in order.
    pub open spec fn all_performed(self, actions: Seq<ActionModel>, o: Occasion) -> EffectsModel
        decreases actions.len(),
    {
        if actions.len() == 0 {
            self
        } else {
            self.all_performed(actions.drop_last(), o).performed(actions.last(), o)
        }
    }
}

/// What the actions of a watch have done so far, the state aside.
struct Effects {
    emits: bool,
    halts: bool,
    dumps: Vec<DumpedRange>,
    releases: Vec<PendingRelease>,
    files: Vec<FileWrite>,
}

impl Effects {
    /// The value of the effects on a state.
    spec fn on(&self, s: StateModel) -> EffectsModel {
        EffectsModel {
            state: s,
            emits: self.emits,
            halts: self.halts,
            dumps: script::dumps_view(self.dumps@),
            releases: script::releases_view(self.releases@),
            files: script::files_view(self.files@),
        }
    }
}

/// The occasion of a poll of a watch.
pub open spec fn occasion(reg: RegistryModel, name: Seq<char>, tick: u32) -> Occasion {
    Occasion { tick, name, sink: reg.sink, pending: reg.pending, released: reg.released }
}

/// Is a pulse on a target waiting to end?
fn is_waiting(releases: &Vec<PendingRelease>, target: &PendingReleaseKind) -> (r: bool)
    ensures
        r == waits(script::releases_view(releases@), target.view()),
{
    let ghost all = script::releases_view(releases@);
    let mut i: usize = 0;
    while i < releases.len()
        invariant
            i <= releases@.len(),
            all == script::releases_view(releases@),
            forall|k: int| 0 <= k < i ==> (#[trigger] all[k]).target != target.view(),
        decreases releases@.len() - i,
    {
        assert(all[i as int] == releases@[i as int].view());
        if releases[i].kind.same_target(target) {
            return true;
        }
        i += 1;
    }
    false
}

/// Did a pulse on a target end at the start of this poll?
fn is_released(released: &Vec<PendingReleaseKind>, target: &PendingReleaseKind) -> (r: bool)
    ensures
        r == script::targets_view(released@).contains(target.view()),
{
    let ghost all = script::targets_view(released@);
    let mut i: usize = 0;
    while i < released.len()
        invariant
            i <= released@.len(),
            all == script::targets_view(released@),
            forall|k: int| 0 <= k < i ==> #[trigger] all[k] != target.view(),
        decreases released@.len() - i,
    {
        assert(all[i as int] == released@[i as int].view());
        if released[i].same_target(target) {
            return true;
        }
        i += 1;
    }
    false
}

/// Reads a memory range.
fn read_range(state: &mut State, addr: i32, len: u32) -> (r: Vec<u8>)
    requires
        old(state).wf(),
    ensures
        final(state).wf(),
        r@ == range_bytes(old(state)@, addr, len),
        final(state)@ == after_range(old(state)@, addr, 0, len as int),
{
    let ghost start = state@;
    let ghost goal = after_range(start, addr, 0, len as int);
    let mut out: Vec<u8> = Vec::new();
    let mut i: u32 = 0;
    while i < len
        invariant
            i <= len,
            state.wf(),
            start == old(state)@,
            same_but_log(start, state@),
            goal == after_range(start, addr, 0, len as int),
            after_range(state@, addr, i as int, len as int) == goal,
            out@.len() == i,
            forall|k: int|
                0 <= k < i ==> #[trigger] out@[k] == state::low_byte(start.read(place(addr, k))),
        decreases len - i,
    {
        proof {
            lemma_same_reads(start, state@);
        }
        let byte: u8 = read_place(state, addr, i as i64);
        out.push(byte);
        i += 1;
    }
    assert(out@ =~= range_bytes(start, addr, len));
    out
}

/// Hands bytes to the sink.
fn dump(
    effects: &mut Effects,
    sink: DumpSink,
    tick: u32,
    name: &String,
    addr: i32,
    bytes: Vec<u8>,
    template: &String,
    tag: &'static str,
)
    ensures
        forall|s: StateModel, o: Occasion|
            o.sink == sink && o.tick == tick && o.name == name@ ==> final(effects).on(s)
                == (#[trigger] old(effects).on(s).dumped(o, addr, bytes@, template@, tag@)),
{
    let ghost old_dumps = effects.dumps@;
    let ghost old_files = effects.files@;
    effects.emits = true;
    match sink {
        DumpSink::Memory => {
            let d = DumpedRange { addr, bytes, path: None, tag };
            effects.dumps.push(d);
            assert(script::dumps_view(effects.dumps@) =~= script::dumps_view(old_dumps).push(
                d.view(),
            ));
        },
        DumpSink::File => {
            let path: String = render_template(template.as_str(), tick, name.as_str());
            let d = DumpedRange { addr, bytes: Vec::new(), path: Some(path.clone()), tag };
            let f = FileWrite { watch_name: name.clone(), path, bytes, tag };
            effects.dumps.push(d);
            effects.files.push(f);
            assert(d.view().bytes =~= Seq::<u8>::empty());
            assert(script::dumps_view(effects.dumps@) =~= script::dumps_view(old_dumps).push(
                d.view(),
            ));
            assert(script::files_view(effects.files@) =~= script::files_view(old_files).push(
                f.view(),
            ));
        },
    }
}

/// Schedules the end of a pulse.
fn schedule(effects: &mut Effects, tick: u32, hold: u32, target: PendingReleaseKind)
    ensures
        forall|s: StateModel, o: Occasion|
            o.tick == tick ==> final(effects).on(s) == (#[trigger] old(effects).on(s).scheduled(
                o,
                target.view(),
                hold,
            )),
{
    let ghost before = effects.releases@;
    let r = PendingRelease { release_tick: tick.saturating_add(hold), kind: target };
    effects.releases.push(r);
    assert(script::releases_view(effects.releases@) =~= script::releases_view(before).push(
        r.view(),
    ));
}

/// Performs one action.
fn perform(
    action: &Action,
    effects: &mut Effects,
    state: &mut State,
    reg: &WatchRegistry,
    name: &String,
    tick: u32,
)
    requires
        old(state).wf(),
    ensures
        final(state).wf(),
        final(effects).on(final(state)@) == old(effects).on(old(state)@).performed(
            action.view(),
            occasion(reg.view(), name@, tick),
        ),
{
    let ghost o = occasion(reg.view(), name@, tick);
    let ghost before = effects.on(state@);
    match action {
        Action::Emit => {
            effects.emits = true;
        },
        Action::DumpMemRange { addr, len, path_template } => {
            let bytes: Vec<u8> = read_range(state, *addr, *len);
            let ghost read = effects.on(state@);
            dump(effects, reg.dump_sink, tick, name, *addr, bytes, path_template, "mem");
            assert(effects.on(state@) == read.dumped(o, *addr, bytes@, path_template@, "mem"@));
        },
        Action::Snapshot { path_template } => {
            let bytes: Vec<u8> = state.snapshot();
            dump(effects, reg.dump_sink, tick, name, 0, bytes, path_template, "snapshot");
            assert(effects.on(state@) == before.dumped(
                o,
                0,
                bytes@,
                path_template@,
                "snapshot"@,
            ));
        },
        Action::SetVar { name: variable, value } => {
            state.set_var(variable.as_str(), *value);
        },
        Action::SetVarPulse { name: variable, value, hold_ticks } => {
            let target = PendingReleaseKind::Var { name: variable.clone() };
            if !is_waiting(&reg.pending_releases, &target) && !is_waiting(
                &effects.releases,
                &target,
            ) && !is_released(&reg.released_this_poll, &target) {
                state.set_var(variable.as_str(), *value);
                let ghost set = effects.on(state@);
                schedule(effects, tick, *hold_ticks, target);
                assert(effects.on(state@) == set.scheduled(o, target.view(), *hold_ticks));
            }
        },
        Action::PseudoActivePulse { pseudo, selector, hold_ticks } => {
            let target = PendingReleaseKind::Pseudo {
                pseudo: pseudo.clone(),
                selector: selector.clone(),
            };
            if !is_waiting(&reg.pending_releases, &target) && !is_waiting(
                &effects.releases,
                &target,
            ) && !is_released(&reg.released_this_poll, &target) {
                state.set_pseudo_class_active(pseudo.as_str(), selector.as_str(), true);
                let ghost set = effects.on(state@);
                schedule(effects, tick, *hold_ticks, target);
                assert(effects.on(state@) == set.scheduled(o, target.view(), *hold_ticks));
            }
        },
        Action::Halt => {
            effects.halts = true;
        },
    }
}

// ---------------------------------------------------------------------------
// One watch
// ---------------------------------------------------------------------------

/// Puts a release into a list that is ordered by tick, behind those of the same
/// tick.
pub open spec fn queued(list: Seq<ReleaseModel>, r: ReleaseModel) -> Seq<ReleaseModel>
    decreases list.len(),
{
    if list.len() == 0 || list.last().tick <= r.tick {
        list.push(r)
    } else {
        queued(list.drop_last(), r).push(list.last())
    }
}

/// Puts releases into a list one after the other.
pub open spec fn all_queued(list: Seq<ReleaseModel>, new: Seq<ReleaseModel>) -> Seq<ReleaseModel>
    decreases new.len(),
{
    if new.len() == 0 {
        list
    } else {
        queued(all_queued(list, new.drop_last()), new.last())
    }
}

/// The values of the sampled variables, 0 for those that do not exist.
pub open spec fn sampled(s: StateModel, names: Seq<Seq<char>>) -> Seq<(Seq<char>, i32)> {
    Seq::new(
        names.len(),
        |i: int|
            (
                names[i],
                match s.var(names[i]) {
                    Some(v) => v,
                    None => 0,
                },
            ),
    )
}

impl RegistryModel {
    /// The registry with what a watch remembers replaced.
    pub open spec fn remembering(self, i: int, kind: KindModel) -> RegistryModel {
        RegistryModel {
            watches: self.watches.update(i, WatchModel { kind, ..self.watches[i] }),
            ..self
        }
    }

    /// What the actions of a watch that fires do, from the state after its
    /// condition was looked at.
    pub open spec fn effects(self, i: int, s: StateModel, tick: u32) -> EffectsModel {
        let w = self.watches[i];
        EffectsModel {
            state: s,
            emits: false,
            halts: w.kind is Halt,
            dumps: Seq::empty(),
            releases: Seq::empty(),
            files: Seq::empty(),
        }.all_performed(w.actions, occasion(self, w.name, tick))
    }

    /// The registry after a watch fired with the given effects.
    pub open spec fn fired(
        self,
        i: int,
        s: StateModel,
        tick: u32,
        e: EffectsModel,
    ) -> RegistryModel {
        let w = self.watches[i];
        RegistryModel {
            fire_counts: self.fire_counts.update(i, self.fire_counts[i].wrapping_add(1)),
            events: if e.emits || e.halts {
                self.events.push(
                    EventModel {
                        tick,
                        name: w.name,
                        sampled: sampled(s, w.samples),
                        dumps: e.dumps,
                        halted: e.halts,
                    },
                )
            } else {
                self.events
            },
            halt: self.halt || e.halts,
            pending: all_queued(self.pending, e.releases),
            files: self.files + e.files,
            ..self
        }
    }
}

/// A registry, the state that it watches, and which watches fired so far.
#[verifier::ext_equal]
pub struct PollModel {
    pub reg: RegistryModel,
    pub state: StateModel,
    pub fired: Seq<bool>,
}

impl PollModel {
    /// Looks at one watch, and performs its actions if it fires.
    pub open spec fn looked_at(self, i: int, tick: u32) -> PollModel {
        let d = decided(self.reg.watches[i].kind, self.state, tick);
        let reg = self.reg.remembering(i, d.kind);
        if d.fires {
            let e = reg.effects(i, d.state, tick);
            PollModel {
                reg: reg.fired(i, d.state, tick, e),
                state: e.state,
                fired: self.fired.update(i, true),
            }
        } else {
            PollModel { reg, state: d.state, fired: self.fired.update(i, false) }
        }
    }
}

/// Puts a release into a list that is ordered by tick.
fn queue(list: &mut Vec<PendingRelease>, r: PendingRelease)
    ensures
        script::releases_view(final(list)@) == queued(
            script::releases_view(old(list)@),
            r.view(),
        ),
{
    let ghost all = script::releases_view(list@);
    let mut at: usize = list.len();
    assert(all.subrange(0, at as int) =~= all);
    assert(queued(all, r.view()) + all.subrange(at as int, all.len() as int) =~= queued(
        all,
        r.view(),
    ));
    while at > 0 && list[at - 1].release_tick > r.release_tick
        invariant
            at <= list@.len(),
            list@ == old(list)@,
            all == script::releases_view(list@),
            queued(all, r.view()) == queued(all.subrange(0, at as int), r.view()) + all.subrange(
                at as int,
                all.len() as int,
            ),
        decreases at,
    {
        proof {
            let head = all.subrange(0, at as int);
            assert(head.last() == list@[at - 1].view());
            assert(head.drop_last() =~= all.subrange(0, at - 1));
            assert(queued(head, r.view()) + all.subrange(at as int, all.len() as int) =~= queued(
                all.subrange(0, at - 1),
                r.view(),
            ) + all.subrange(at - 1, all.len() as int));
        }
        at -= 1;
    }
    proof {
        let head = all.subrange(0, at as int);
        if at > 0 {
            assert(head.last() == list@[at - 1].view());
        }
        assert(queued(head, r.view()) == head.push(r.view()));
    }
    list.insert(at, r);
    assert(script::releases_view(list@) =~= all.subrange(0, at as int).push(r.view())
        + all.subrange(at as int, all.len() as int));
}

/// Puts releases into a list that is ordered by tick.
fn queue_all(list: &mut Vec<PendingRelease>, new: Vec<PendingRelease>)
    ensures
        script::releases_view(final(list)@) == all_queued(
            script::releases_view(old(list)@),
            script::releases_view(new@),
        ),
{
    let ghost start = script::releases_view(list@);
    let ghost all = script::releases_view(new@);
    let mut i: usize = 0;
    assert(all.subrange(0, 0) =~= Seq::<ReleaseModel>::empty());
    while i < new.len()
        invariant
            i <= new@.len(),
            all == script::releases_view(new@),
            script::releases_view(list@) == all_queued(start, all.subrange(0, i as int)),
        decreases new@.len() - i,
    {
        assert(all.subrange(0, i + 1).drop_last() =~= all.subrange(0, i as int));
        assert(all.subrange(0, i + 1).last() == new@[i as int].view());
        let r = copy_release(&new[i]);
        queue(list, r);
        i += 1;
    }
    assert(all.subrange(0, i as int) =~= all);
}

/// Copies a target.
fn copy_target(t: &PendingReleaseKind) -> (r: PendingReleaseKind)
    ensures
        r.view() == t.view(),
{
    match t {
        PendingReleaseKind::Var { name } => PendingReleaseKind::Var { name: name.clone() },
        PendingReleaseKind::Pseudo { pseudo, selector } => PendingReleaseKind::Pseudo {
            pseudo: pseudo.clone(),
            selector: selector.clone(),
        },
    }
}

/// Copies a release.
fn copy_release(r: &PendingRelease) -> (c: PendingRelease)
    ensures
        c.view() == r.view(),
{
    PendingRelease { release_tick: r.release_tick, kind: copy_target(&r.kind) }
}

/// Samples variables.
fn sample(state: &State, names: &Vec<String>) -> (r: Vec<(String, i32)>)
    requires
        state.wf(),
    ensures
        Seq::new(r@.len(), |i: int| (r@[i].0@, r@[i].1)) == sampled(
            state@,
            text::views(names@),
        ),
{
    let ghost all = sampled(state@, text::views(names@));
    let mut out: Vec<(String, i32)> = Vec::new();
    let mut i: usize = 0;
    while i < names.len()
        invariant
            i <= names@.len(),
            state.wf(),
            all == sampled(state@, text::views(names@)),
            out@.len() == i,
            forall|k: int| 0 <= k < i ==> ((#[trigger] out@[k]).0@, out@[k].1) == all[k],
        decreases names@.len() - i,
    {
        let value: i32 = match state.get_var(names[i].as_str()) {
            Some(v) => v,
            None => 0,
        };
        out.push((names[i].clone(), value));
        i += 1;
    }
    assert(Seq::new(out@.len(), |i: int| (out@[i].0@, out@[i].1)) =~= all);
    out
}

/// Appends files.
fn append_files(list: &mut Vec<FileWrite>, new: Vec<FileWrite>)
    ensures
        script::files_view(final(list)@) == script::files_view(old(list)@) + script::files_view(
            new@,
        ),
{
    let mut new = new;
    let ghost before = list@;
    let ghost added = new@;
    list.append(&mut new);
    assert(script::files_view(list@) =~= script::files_view(before) + script::files_view(added));
}

/// Looks at one watch, and performs its actions if it fires. Tells whether it
/// fired.
fn evaluate_watch(reg: &mut WatchRegistry, state: &mut State, idx: usize, tick: u32) -> (r: bool)
    requires
        old(state).wf(),
        old(reg).wf(),
        idx < old(reg).watches@.len(),
    ensures
        final(state).wf(),
        final(reg).wf(),
        forall|fired: Seq<bool>|
            (#[trigger] PollModel {
                reg: old(reg).view(),
                state: old(state)@,
                fired,
            }.looked_at(idx as int, tick)) == (PollModel {
                reg: final(reg).view(),
                state: final(state)@,
                fired: fired.update(idx as int, r),
            }),
{
    let ghost reg0 = reg.view();
    let ghost s0 = state@;
    let ghost w0 = reg.watches@[idx as int].view();
    let ghost d = decided(w0.kind, s0, tick);
    let fires: bool = decide(&mut reg.watches[idx].kind, state, tick);
    let ghost reg1 = reg.view();
    assert(reg1.watches =~= reg0.watches.update(idx as int, WatchModel { kind: d.kind, ..w0 }));
    assert(reg1 =~= reg0.remembering(idx as int, d.kind));
    if !fires {
        return false;
    }
    let ghost s1 = state@;
    let w: &WatchSpec = &reg.watches[idx];
    assert(reg1.watches[idx as int] == w.view());
    let ghost o = occasion(reg1, w.name@, tick);
    let ghost actions = w.view().actions;
    let halting: bool = match &w.kind {
        WatchKind::Halt { .. } => true,
        _ => false,
    };
    let samples: Vec<(String, i32)> = sample(state, &w.sample_vars);
    let mut effects = Effects {
        emits: false,
        halts: halting,
        dumps: Vec::new(),
        releases: Vec::new(),
        files: Vec::new(),
    };
    let ghost start = EffectsModel {
        state: s1,
        emits: false,
        halts: w.view().kind is Halt,
        dumps: Seq::empty(),
        releases: Seq::empty(),
        files: Seq::empty(),
    };
    assert(effects.on(state@) =~= start);
    let mut i: usize = 0;
    assert(actions.subrange(0, 0) =~= Seq::<ActionModel>::empty());
    while i < w.actions.len()
        invariant
            i <= w.actions@.len(),
            state.wf(),
            actions == w.view().actions,
            reg.view() == reg1,
            o == occasion(reg1, w.name@, tick),
            effects.on(state@) == start.all_performed(actions.subrange(0, i as int), o),
        decreases w.actions@.len() - i,
    {
        assert(actions.subrange(0, i + 1).drop_last() =~= actions.subrange(0, i as int));
        assert(actions.subrange(0, i + 1).last() == w.actions@[i as int].view());
        perform(&w.actions[i], &mut effects, state, reg, &w.name, tick);
        i += 1;
    }
    assert(actions.subrange(0, i as int) =~= actions);
    let ghost e = effects.on(state@);
    assert(e == reg1.effects(idx as int, s1, tick));
    let watch_name: String = w.name.clone();
    let Effects { emits, halts, dumps, releases, files } = effects;
    let count: u32 = reg.fire_counts[idx];
    reg.fire_counts.set(idx, count.wrapping_add(1));
    if halts {
        reg.halt_requested = true;
    }
    if emits || halts {
        let event = MeasurementEvent { tick, watch_name, sampled_vars: samples, dumps, halted: halts };
        let ghost before = reg.events@;
        reg.events.push(event);
        assert(script::events_view(reg.events@) =~= script::events_view(before).push(
            event.view(),
        ));
    }
    queue_all(&mut reg.pending_releases, releases);
    append_files(&mut reg.file_writes, files);
    assert(reg.view() =~= reg1.fired(idx as int, s1, tick, e));
    true
}

// ---------------------------------------------------------------------------
// A poll
// ---------------------------------------------------------------------------

impl StateModel {
    /// The state after a pulse on a target ended: the variable is 0, or the
    /// pseudo-class inactive.
    pub open spec fn released(self, target: TargetModel) -> StateModel {
        match target {
            TargetModel::Var(name) => self.with_var(name, 0),
            TargetModel::Pseudo(pseudo, selector) => self.with_gate((pseudo, selector), false),
        }
    }
}

/// What ending the pulses that are due comes to.
#[verifier::ext_equal]
pub struct ReleasedModel {
    pub state: StateModel,
    pub released: Seq<TargetModel>,
    pub kept: Seq<ReleaseModel>,
}

/// Ends the pulses that are due at `tick`, in order, and keeps the others.
pub open spec fn all_released(pending: Seq<ReleaseModel>, s: StateModel, tick: u32) -> ReleasedModel
    decreases pending.len(),
{
    if pending.len() == 0 {
        ReleasedModel { state: s, released: Seq::empty(), kept: Seq::empty() }
    } else {
        let before = all_released(pending.drop_last(), s, tick);
        let r = pending.last();
        if tick >= r.tick {
            ReleasedModel {
                state: before.state.released(r.target),
                released: before.released.push(r.target),
                ..before
            }
        } else {
            ReleasedModel { kept: before.kept.push(r), ..before }
        }
    }
}

impl PollModel {
    /// The first pass: looks at the watches without gate among the first `n`.
    pub open spec fn first_pass(self, tick: u32, n: nat) -> PollModel
        decreases n,
    {
        if n == 0 {
            self
        } else {
            let before = self.first_pass(tick, (n - 1) as nat);
            if before.reg.watches[n - 1].gate is None {
                before.looked_at(n - 1, tick)
            } else {
                before
            }
        }
    }

    /// Did a watch's gate fire?
    pub open spec fn gate_open(self, i: int) -> bool {
        match self.reg.watches[i].gate {
            Some(g) => match script::first_named(self.reg.watches, g) {
                Some(k) => self.fired[k],
                None => false,
            },
            None => false,
        }
    }

    /// The second pass: looks at the gated watches among the first `n` whose
    /// gate fired. A gate that is not registered never fires.
    pub open spec fn second_pass(self, tick: u32, n: nat) -> PollModel
        decreases n,
    {
        if n == 0 {
            self
        } else {
            let before = self.second_pass(tick, (n - 1) as nat);
            if before.gate_open(n - 1) {
                before.looked_at(n - 1, tick)
            } else {
                before
            }
        }
    }
}

/// The start of a poll: due pulses end, no watch has fired yet.
pub open spec fn poll_start(reg: RegistryModel, s: StateModel, tick: u32) -> PollModel {
    let r = all_released(reg.pending, s, tick);
    PollModel {
        reg: RegistryModel { pending: r.kept, released: r.released, ..reg },
        state: r.state,
        fired: Seq::new(reg.watches.len(), |i: int| false),
    }
}

/// A poll: due pulses end, then the watches without gate are looked at, then
/// those whose gate fired.
pub open spec fn polled(reg: RegistryModel, s: StateModel, tick: u32) -> PollModel {
    let n = reg.watches.len();
    let end = poll_start(reg, s, tick).first_pass(tick, n).second_pass(tick, n);
    PollModel { reg: RegistryModel { gate_fired: end.fired, ..end.reg }, ..end }
}

/// Looking at a watch changes neither the number of watches nor their names and
/// gates.
pub proof fn lemma_looked_at(p: PollModel, i: int, tick: u32)
    requires
        0 <= i < p.reg.watches.len(),
        p.fired.len() == p.reg.watches.len(),
    ensures
        p.looked_at(i, tick).reg.watches.len() == p.reg.watches.len(),
        p.looked_at(i, tick).fired.len() == p.fired.len(),
        forall|k: int|
            0 <= k < p.reg.watches.len() ==> (#[trigger] p.looked_at(i, tick).reg.watches[k]).name
                == p.reg.watches[k].name && p.looked_at(i, tick).reg.watches[k].gate
                == p.reg.watches[k].gate,
{
}

/// Ends the pulses that are due.
fn release_due(reg: &mut WatchRegistry, state: &mut State, tick: u32)
    requires
        old(state).wf(),
        old(reg).wf(),
    ensures
        final(state).wf(),
        final(reg).wf(),
        final(state)@ == all_released(old(reg).view().pending, old(state)@, tick).state,
        final(reg).view() == (RegistryModel {
            pending: all_released(old(reg).view().pending, old(state)@, tick).kept,
            released: all_released(old(reg).view().pending, old(state)@, tick).released,
            ..old(reg).view()
        }),
{
    let ghost s0 = state@;
    let ghost all = reg.view().pending;
    let mut released: Vec<PendingReleaseKind> = Vec::new();
    let mut kept: Vec<PendingRelease> = Vec::new();
    let mut i: usize = 0;
    assert(all.subrange(0, 0) =~= Seq::<ReleaseModel>::empty());
    assert(script::targets_view(released@) =~= Seq::<TargetModel>::empty());
    assert(script::releases_view(kept@) =~= Seq::<ReleaseModel>::empty());
    while i < reg.pending_releases.len()
        invariant
            i <= reg.pending_releases@.len(),
            *reg == *old(reg),
            state.wf(),
            all == script::releases_view(reg.pending_releases@),
            all_released(all.subrange(0, i as int), s0, tick) == (ReleasedModel {
                state: state@,
                released: script::targets_view(released@),
                kept: script::releases_view(kept@),
            }),
        decreases reg.pending_releases@.len() - i,
    {
        let r: &PendingRelease = &reg.pending_releases[i];
        assert(all.subrange(0, i + 1).drop_last() =~= all.subrange(0, i as int));
        assert(all.subrange(0, i + 1).last() == r.view());
        let ghost old_released = released@;
        let ghost old_kept = kept@;
        if tick >= r.release_tick {
            match &r.kind {
                PendingReleaseKind::Var { name } => {
                    state.set_var(name.as_str(), 0);
                },
                PendingReleaseKind::Pseudo { pseudo, selector } => {
                    state.set_pseudo_class_active(pseudo.as_str(), selector.as_str(), false);
                },
            }
            let target = copy_target(&r.kind);
            released.push(target);
            assert(script::targets_view(released@) =~= script::targets_view(old_released).push(
                target.view(),
            ));
        } else {
            let copy = copy_release(r);
            kept.push(copy);
            assert(script::releases_view(kept@) =~= script::releases_view(old_kept).push(
                copy.view(),
            ));
        }
        i += 1;
    }
    assert(all.subrange(0, i as int) =~= all);
    reg.released_this_poll = released;
    reg.pending_releases = kept;
}

/// Polls a registry at a tick.
pub fn poll(reg: &mut WatchRegistry, state: &mut State, tick: u32)
    requires
        old(state).wf(),
        old(reg).wf(),
    ensures
        final(state).wf(),
        final(reg).wf(),
        final(reg).view() == polled(old(reg).view(), old(state)@, tick).reg,
        final(state)@ == polled(old(reg).view(), old(state)@, tick).state,
{
    let ghost start = poll_start(reg.view(), state@, tick);
    let n: usize = reg.watches.len();
    release_due(reg, state, tick);
    let mut fired: Vec<bool> = Vec::new();
    let mut k: usize = 0;
    while k < n
        invariant
            k <= n,
            fired@ == Seq::new(k as nat, |i: int| false),
        decreases n - k,
    {
        fired.push(false);
        k += 1;
        assert(fired@ =~= Seq::new(k as nat, |i: int| false));
    }
    let mut i: usize = 0;
    assert(PollModel { reg: reg.view(), state: state@, fired: fired@ } =~= start);
    while i < n
        invariant
            i <= n,
            state.wf(),
            reg.wf(),
            n == reg.watches@.len(),
            fired@.len() == n,
            start.first_pass(tick, i as nat) == (PollModel {
                reg: reg.view(),
                state: state@,
                fired: fired@,
            }),
        decreases n - i,
    {
        let ghost now = PollModel { reg: reg.view(), state: state@, fired: fired@ };
        assert(now.reg.watches[i as int] == reg.watches@[i as int].view());
        if reg.watches[i].gate.is_none() {
            proof {
                lemma_looked_at(now, i as int, tick);
            }
            let f: bool = evaluate_watch(reg, state, i, tick);
            fired.set(i, f);
            assert(reg.view().watches.len() == reg.watches@.len());
        }
        i += 1;
    }
    let ghost middle = PollModel { reg: reg.view(), state: state@, fired: fired@ };
    let mut j: usize = 0;
    while j < n
        invariant
            j <= n,
            state.wf(),
            reg.wf(),
            n == reg.watches@.len(),
            fired@.len() == n,
            middle.second_pass(tick, j as nat) == (PollModel {
                reg: reg.view(),
                state: state@,
                fired: fired@,
            }),
        decreases n - j,
    {
        let ghost now = PollModel { reg: reg.view(), state: state@, fired: fired@ };
        assert(now.reg.watches[j as int] == reg.watches@[j as int].view());
        let open: bool = match &reg.watches[j].gate {
            Some(gate) => match reg.name_index(gate.as_str()) {
                Some(g) => fired[g],
                None => false,
            },
            None => false,
        };
        assert(open == now.gate_open(j as int));
        if open {
            proof {
                lemma_looked_at(now, j as int, tick);
            }
            let f: bool = evaluate_watch(reg, state, j, tick);
            fired.set(j, f);
            assert(reg.view().watches.len() == reg.watches@.len());
        }
        j += 1;
    }
    reg.gate_fired = fired;
}

} // verus!
