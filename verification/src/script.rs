//! Watches: conditions on a running machine, and what to do when they fire.
//!
//! A host registers watches with a [`WatchRegistry`] and polls it as the machine
//! advances. A watch that fires performs its actions in order; measurements are
//! collected as events that the host drains.

use crate::text;
use vstd::prelude::*;

verus! {

/// A registered watch: when it fires, and what it does then.
#[derive(Debug)]
pub struct WatchSpec {
    /// Name that its events carry.
    pub name: String,
    /// When it fires.
    pub kind: WatchKind,
    /// The watch that gates this one: it is looked at only in polls in which the
    /// gate fired.
    pub gate: Option<String>,
    /// What it does, in order.
    pub actions: Vec<Action>,
    /// The variables whose values its events record.
    pub sample_vars: Vec<String>,
}

/// When a watch fires.
#[derive(Debug)]
pub enum WatchKind {
    /// Once `every` ticks have passed since it last fired.
    Stride {
        /// The number of ticks.
        every: u32,
        /// The tick at which it last fired.
        last_fired_at: u32,
    },
    /// On `count` consecutive ticks out of every `every`.
    Burst {
        /// The period.
        every: u32,
        /// The ticks of a period on which it fires.
        count: u32,
    },
    /// At one tick.
    At {
        /// The tick.
        tick: u32,
    },
    /// When a byte differs from what it was the last time.
    Edge {
        /// The byte's address.
        addr: i32,
        /// What it was the last time.
        last: u8,
        /// Whether it has been read before.
        primed: bool,
    },
    /// When all tests hold.
    Cond {
        /// The tests.
        tests: Vec<Predicate>,
        /// Whether it fires in every poll in which they hold, or only once.
        repeat: bool,
        /// Whether it has fired.
        fired: bool,
        /// Whether the tests held the last time.
        last_held: bool,
    },
    /// When a byte is not zero; this also asks the host to stop.
    Halt {
        /// The byte's address.
        addr: i32,
    },
}

/// A test of memory.
#[derive(Debug, Clone)]
pub enum Predicate {
    /// A byte has a value.
    ByteEq {
        /// The byte's address.
        addr: i32,
        /// The value.
        val: u8,
    },
    /// A byte does not have a value.
    ByteNe {
        /// The byte's address.
        addr: i32,
        /// The value.
        val: u8,
    },
    /// A run of bytes stands somewhere in a window, `stride` addresses apart.
    BytePatternAt {
        /// First address of the window.
        base: i32,
        /// Distance between bytes.
        stride: u32,
        /// Size of the window.
        max_window: u32,
        /// The bytes.
        needle: Vec<u8>,
    },
}

/// What a watch does when it fires.
#[derive(Debug, Clone)]
pub enum Action {
    /// Record an event.
    Emit,
    /// Dump a range of memory.
    DumpMemRange {
        /// First address.
        addr: i32,
        /// Number of bytes.
        len: u32,
        /// Where to, with `{tick}` and `{name}` filled in.
        path_template: String,
    },
    /// Dump a snapshot of the state.
    Snapshot {
        /// Where to, with `{tick}` and `{name}` filled in.
        path_template: String,
    },
    /// Set a variable.
    SetVar {
        /// The variable.
        name: String,
        /// Its new value.
        value: i32,
    },
    /// Set a variable, and set it to 0 some ticks later.
    SetVarPulse {
        /// The variable.
        name: String,
        /// Its new value.
        value: i32,
        /// How many ticks it holds the value.
        hold_ticks: u32,
    },
    /// Make a pseudo-class active, and inactive some ticks later.
    PseudoActivePulse {
        /// The pseudo-class.
        pseudo: String,
        /// The element.
        selector: String,
        /// How many ticks it stays active.
        hold_ticks: u32,
    },
    /// Ask the host to stop.
    Halt,
}

/// Where dumped bytes go.
#[derive(Debug, Clone, Copy, PartialEq, Eq, Structural)]
pub enum DumpSink {
    /// Into the event.
    Memory,
    /// Into a file, which the host writes.
    File,
}

/// One dump of an event.
#[derive(Debug, Clone)]
pub struct DumpedRange {
    /// First address; 0 for a snapshot.
    pub addr: i32,
    /// The bytes, if they go into the event.
    pub bytes: Vec<u8>,
    /// The path, if they go into a file.
    pub path: Option<String>,
    /// `"mem"` or `"snapshot"`.
    pub tag: &'static str,
}

/// What a watch measured.
#[derive(Debug, Clone)]
pub struct MeasurementEvent {
    /// The tick.
    pub tick: u32,
    /// The watch.
    pub watch_name: String,
    /// The sampled variables, 0 for those that do not exist.
    pub sampled_vars: Vec<(String, i32)>,
    /// What was dumped.
    pub dumps: Vec<DumpedRange>,
    /// Whether the watch asked the host to stop.
    pub halted: bool,
}

/// A file that the host has to write.
#[derive(Debug, Clone)]
pub struct FileWrite {
    /// The watch that asked for it.
    pub watch_name: String,
    /// The path.
    pub path: String,
    /// The contents.
    pub bytes: Vec<u8>,
    /// `"mem"` or `"snapshot"`.
    pub tag: &'static str,
}

/// A pulse that is to end.
#[derive(Debug, Clone)]
pub struct PendingRelease {
    /// From which tick on.
    pub release_tick: u32,
    /// What it ends.
    pub kind: PendingReleaseKind,
}

/// What a pulse drives.
#[derive(Debug, Clone)]
pub enum PendingReleaseKind {
    /// A variable.
    Var {
        /// The variable.
        name: String,
    },
    /// A pseudo-class.
    Pseudo {
        /// The pseudo-class.
        pseudo: String,
        /// The element.
        selector: String,
    },
}

/// The registered watches, and what they produced.
#[derive(Debug)]
pub struct WatchRegistry {
    /// The watches.
    pub watches: Vec<WatchSpec>,
    /// How often each watch fired.
    pub fire_counts: Vec<u32>,
    /// Whether each watch fired in the last poll.
    pub gate_fired: Vec<bool>,
    /// The events that were not drained yet.
    pub events: Vec<MeasurementEvent>,
    /// Whether a watch asked the host to stop.
    pub halt_requested: bool,
    /// Where dumped bytes go.
    pub dump_sink: DumpSink,
    /// The pulses that are to end, those that end first in front.
    pub pending_releases: Vec<PendingRelease>,
    /// What pulses ended at the start of this poll.
    pub released_this_poll: Vec<PendingReleaseKind>,
    /// The files that the host has not written yet.
    pub file_writes: Vec<FileWrite>,
}

// ---------------------------------------------------------------------------
// Mathematical values
// ---------------------------------------------------------------------------

/// The value of a [`Predicate`].
#[verifier::ext_equal]
pub enum PredicateModel {
    ByteEq { addr: i32, val: u8 },
    ByteNe { addr: i32, val: u8 },
    Pattern { base: i32, stride: u32, window: u32, needle: Seq<u8> },
}

/// The value of a [`WatchKind`].
#[verifier::ext_equal]
pub enum KindModel {
    Stride { every: u32, last: u32 },
    Burst { every: u32, count: u32 },
    At { tick: u32 },
    Edge { addr: i32, last: u8, primed: bool },
    Cond { tests: Seq<PredicateModel>, repeat: bool, fired: bool, held: bool },
    Halt { addr: i32 },
}

/// The value of an [`Action`].
#[verifier::ext_equal]
pub enum ActionModel {
    Emit,
    Dump { addr: i32, len: u32, path: Seq<char> },
    Snapshot { path: Seq<char> },
    SetVar { name: Seq<char>, value: i32 },
    SetVarPulse { name: Seq<char>, value: i32, hold: u32 },
    PseudoPulse { pseudo: Seq<char>, selector: Seq<char>, hold: u32 },
    Halt,
}

/// The value of a [`WatchSpec`].
#[verifier::ext_equal]
pub struct WatchModel {
    pub name: Seq<char>,
    pub kind: KindModel,
    pub gate: Option<Seq<char>>,
    pub actions: Seq<ActionModel>,
    pub samples: Seq<Seq<char>>,
}

/// The value of a [`DumpedRange`].
#[verifier::ext_equal]
pub struct DumpModel {
    pub addr: i32,
    pub bytes: Seq<u8>,
    pub path: Option<Seq<char>>,
    pub tag: Seq<char>,
}

/// The value of a [`MeasurementEvent`].
#[verifier::ext_equal]
pub struct EventModel {
    pub tick: u32,
    pub name: Seq<char>,
    pub sampled: Seq<(Seq<char>, i32)>,
    pub dumps: Seq<DumpModel>,
    pub halted: bool,
}

/// The value of a [`FileWrite`].
#[verifier::ext_equal]
pub struct FileModel {
    pub name: Seq<char>,
    pub path: Seq<char>,
    pub bytes: Seq<u8>,
    pub tag: Seq<char>,
}

/// The value of a [`PendingReleaseKind`].
#[verifier::ext_equal]
pub enum TargetModel {
    Var(Seq<char>),
    Pseudo(Seq<char>, Seq<char>),
}

/// The value of a [`PendingRelease`].
#[verifier::ext_equal]
pub struct ReleaseModel {
    pub tick: u32,
    pub target: TargetModel,
}

/// The value of a [`WatchRegistry`].
#[verifier::ext_equal]
pub struct RegistryModel {
    pub watches: Seq<WatchModel>,
    pub fire_counts: Seq<u32>,
    pub gate_fired: Seq<bool>,
    pub events: Seq<EventModel>,
    pub halt: bool,
    pub sink: DumpSink,
    pub pending: Seq<ReleaseModel>,
    pub released: Seq<TargetModel>,
    pub files: Seq<FileModel>,
}

impl Predicate {
    /// The value of a test.
    pub open spec fn view(&self) -> PredicateModel {
        match self {
            Predicate::ByteEq { addr, val } => PredicateModel::ByteEq { addr: *addr, val: *val },
            Predicate::ByteNe { addr, val } => PredicateModel::ByteNe { addr: *addr, val: *val },
            Predicate::BytePatternAt { base, stride, max_window, needle } => {
                PredicateModel::Pattern {
                    base: *base,
                    stride: *stride,
                    window: *max_window,
                    needle: needle@,
                }
            },
        }
    }
}

/// The values of a list of tests.
pub open spec fn predicates_view(v: Seq<Predicate>) -> Seq<PredicateModel> {
    Seq::new(v.len(), |i: int| v[i].view())
}

impl WatchKind {
    /// The value of a firing condition.
    pub open spec fn view(&self) -> KindModel {
        match self {
            WatchKind::Stride { every, last_fired_at } => KindModel::Stride {
                every: *every,
                last: *last_fired_at,
            },
            WatchKind::Burst { every, count } => KindModel::Burst { every: *every, count: *count },
            WatchKind::At { tick } => KindModel::At { tick: *tick },
            WatchKind::Edge { addr, last, primed } => KindModel::Edge {
                addr: *addr,
                last: *last,
                primed: *primed,
            },
            WatchKind::Cond { tests, repeat, fired, last_held } => KindModel::Cond {
                tests: predicates_view(tests@),
                repeat: *repeat,
                fired: *fired,
                held: *last_held,
            },
            WatchKind::Halt { addr } => KindModel::Halt { addr: *addr },
        }
    }
}

impl Action {
    /// The value of an action.
    pub open spec fn view(&self) -> ActionModel {
        match self {
            Action::Emit => ActionModel::Emit,
            Action::DumpMemRange { addr, len, path_template } => ActionModel::Dump {
                addr: *addr,
                len: *len,
                path: path_template@,
            },
            Action::Snapshot { path_template } => ActionModel::Snapshot { path: path_template@ },
            Action::SetVar { name, value } => ActionModel::SetVar { name: name@, value: *value },
            Action::SetVarPulse { name, value, hold_ticks } => ActionModel::SetVarPulse {
                name: name@,
                value: *value,
                hold: *hold_ticks,
            },
            Action::PseudoActivePulse { pseudo, selector, hold_ticks } => {
                ActionModel::PseudoPulse {
                    pseudo: pseudo@,
                    selector: selector@,
                    hold: *hold_ticks,
                }
            },
            Action::Halt => ActionModel::Halt,
        }
    }
}

impl WatchSpec {
    /// The value of a watch.
    pub open spec fn view(&self) -> WatchModel {
        WatchModel {
            name: self.name@,
            kind: self.kind.view(),
            gate: text::maybe_view(self.gate),
            actions: Seq::new(self.actions@.len(), |i: int| self.actions@[i].view()),
            samples: text::views(self.sample_vars@),
        }
    }
}

impl DumpedRange {
    /// The value of a dump.
    pub open spec fn view(&self) -> DumpModel {
        DumpModel {
            addr: self.addr,
            bytes: self.bytes@,
            path: text::maybe_view(self.path),
            tag: self.tag@,
        }
    }
}

impl MeasurementEvent {
    /// The value of an event.
    pub open spec fn view(&self) -> EventModel {
        EventModel {
            tick: self.tick,
            name: self.watch_name@,
            sampled: Seq::new(
                self.sampled_vars@.len(),
                |i: int| (self.sampled_vars@[i].0@, self.sampled_vars@[i].1),
            ),
            dumps: Seq::new(self.dumps@.len(), |i: int| self.dumps@[i].view()),
            halted: self.halted,
        }
    }
}

impl FileWrite {
    /// The value of a file.
    pub open spec fn view(&self) -> FileModel {
        FileModel {
            name: self.watch_name@,
            path: self.path@,
            bytes: self.bytes@,
            tag: self.tag@,
        }
    }
}

impl PendingReleaseKind {
    /// The value of a target.
    pub open spec fn view(&self) -> TargetModel {
        match self {
            PendingReleaseKind::Var { name } => TargetModel::Var(name@),
            PendingReleaseKind::Pseudo { pseudo, selector } => TargetModel::Pseudo(
                pseudo@,
                selector@,
            ),
        }
    }

    /// Do two pulses drive the same thing?
    pub fn same_target(&self, other: &PendingReleaseKind) -> (r: bool)
        ensures
            r == (self.view() == other.view()),
    {
        match (self, other) {
            (PendingReleaseKind::Var { name: a }, PendingReleaseKind::Var { name: b }) => *a == *b,
            (
                PendingReleaseKind::Pseudo { pseudo: a, selector: x },
                PendingReleaseKind::Pseudo { pseudo: b, selector: y },
            ) => *a == *b && *x == *y,
            _ => false,
        }
    }
}

impl PendingRelease {
    /// The value of a release.
    pub open spec fn view(&self) -> ReleaseModel {
        ReleaseModel { tick: self.release_tick, target: self.kind.view() }
    }
}

/// The values of a list of watches.
pub open spec fn watches_view(v: Seq<WatchSpec>) -> Seq<WatchModel> {
    Seq::new(v.len(), |i: int| v[i].view())
}

/// The values of a list of events.
pub open spec fn events_view(v: Seq<MeasurementEvent>) -> Seq<EventModel> {
    Seq::new(v.len(), |i: int| v[i].view())
}

/// The values of a list of dumps.
pub open spec fn dumps_view(v: Seq<DumpedRange>) -> Seq<DumpModel> {
    Seq::new(v.len(), |i: int| v[i].view())
}

/// The values of a list of releases.
pub open spec fn releases_view(v: Seq<PendingRelease>) -> Seq<ReleaseModel> {
    Seq::new(v.len(), |i: int| v[i].view())
}

/// The values of a list of targets.
pub open spec fn targets_view(v: Seq<PendingReleaseKind>) -> Seq<TargetModel> {
    Seq::new(v.len(), |i: int| v[i].view())
}

/// The values of a list of files.
pub open spec fn files_view(v: Seq<FileWrite>) -> Seq<FileModel> {
    Seq::new(v.len(), |i: int| v[i].view())
}

/// Position of the first watch with a given name.
pub open spec fn first_named(watches: Seq<WatchModel>, name: Seq<char>) -> Option<int>
    decreases watches.len(),
{
    if watches.len() == 0 {
        None
    } else {
        match first_named(watches.drop_last(), name) {
            Some(i) => Some(i),
            None => if watches.last().name == name {
                Some(watches.len() - 1)
            } else {
                None
            },
        }
    }
}

impl RegistryModel {
    /// A registry without watches.
    pub open spec fn empty() -> RegistryModel {
        RegistryModel {
            watches: Seq::empty(),
            fire_counts: Seq::empty(),
            gate_fired: Seq::empty(),
            events: Seq::empty(),
            halt: false,
            sink: DumpSink::Memory,
            pending: Seq::empty(),
            released: Seq::empty(),
            files: Seq::empty(),
        }
    }
}

// ---------------------------------------------------------------------------
// The registry
// ---------------------------------------------------------------------------

impl WatchRegistry {
    /// The value of a registry.
    pub open spec fn view(&self) -> RegistryModel {
        RegistryModel {
            watches: watches_view(self.watches@),
            fire_counts: self.fire_counts@,
            gate_fired: self.gate_fired@,
            events: events_view(self.events@),
            halt: self.halt_requested,
            sink: self.dump_sink,
            pending: releases_view(self.pending_releases@),
            released: targets_view(self.released_this_poll@),
            files: files_view(self.file_writes@),
        }
    }

    /// Every watch has its counters.
    pub open spec fn wf(&self) -> bool {
        self.fire_counts@.len() == self.watches@.len() && self.gate_fired@.len()
            == self.watches@.len()
    }

    /// A registry without watches.
    pub fn new() -> (r: WatchRegistry)
        ensures
            r.wf(),
            r.view() == RegistryModel::empty(),
    {
        let r = WatchRegistry {
            watches: Vec::new(),
            fire_counts: Vec::new(),
            gate_fired: Vec::new(),
            events: Vec::new(),
            halt_requested: false,
            dump_sink: DumpSink::Memory,
            pending_releases: Vec::new(),
            released_this_poll: Vec::new(),
            file_writes: Vec::new(),
        };
        assert(r.view() =~= RegistryModel::empty());
        r
    }

    /// Says where dumped bytes go.
    pub fn set_dump_sink(&mut self, sink: DumpSink)
        ensures
            final(self).view() == (RegistryModel { sink, ..old(self).view() }),
            final(self).wf() == old(self).wf(),
    {
        self.dump_sink = sink;
    }

    /// Registers a watch and returns its index.
    pub fn register(&mut self, spec: WatchSpec) -> (r: usize)
        requires
            old(self).wf(),
        ensures
            final(self).wf(),
            r == old(self).view().watches.len(),
            final(self).view() == (RegistryModel {
                watches: old(self).view().watches.push(spec.view()),
                fire_counts: old(self).view().fire_counts.push(0),
                gate_fired: old(self).view().gate_fired.push(false),
                ..old(self).view()
            }),
    {
        let index: usize = self.watches.len();
        let ghost before = self.watches@;
        self.watches.push(spec);
        self.fire_counts.push(0);
        self.gate_fired.push(false);
        assert(watches_view(self.watches@) =~= watches_view(before).push(spec.view()));
        index
    }

    /// Takes the events that were collected so far.
    pub fn drain_events(&mut self) -> (r: Vec<MeasurementEvent>)
        ensures
            events_view(r@) == old(self).view().events,
            final(self).view() == (RegistryModel { events: Seq::empty(), ..old(self).view() }),
            final(self).wf() == old(self).wf(),
    {
        let mut taken: Vec<MeasurementEvent> = Vec::new();
        std::mem::swap(&mut taken, &mut self.events);
        assert(events_view(self.events@) =~= Seq::<EventModel>::empty());
        taken
    }

    /// Takes the files that the host has to write.
    pub fn drain_file_writes(&mut self) -> (r: Vec<FileWrite>)
        ensures
            files_view(r@) == old(self).view().files,
            final(self).view() == (RegistryModel { files: Seq::empty(), ..old(self).view() }),
            final(self).wf() == old(self).wf(),
    {
        let mut taken: Vec<FileWrite> = Vec::new();
        std::mem::swap(&mut taken, &mut self.file_writes);
        assert(files_view(self.file_writes@) =~= Seq::<FileModel>::empty());
        taken
    }

    /// Did a watch ask the host to stop?
    pub fn halt_requested(&self) -> (r: bool)
        ensures
            r == self.view().halt,
    {
        self.halt_requested
    }

    /// Number of watches.
    pub fn len(&self) -> (r: usize)
        ensures
            r == self.view().watches.len(),
    {
        self.watches.len()
    }

    /// Are there no watches?
    pub fn is_empty(&self) -> (r: bool)
        ensures
            r == (self.view().watches.len() == 0),
    {
        self.watches.len() == 0
    }

    /// The names of the watches, in order of registration.
    pub fn watch_names(&self) -> (r: Vec<&str>)
        ensures
            r@.len() == self.view().watches.len(),
            forall|i: int|
                0 <= i < r@.len() ==> (#[trigger] r@[i])@ == self.view().watches[i].name,
    {
        let mut out: Vec<&str> = Vec::new();
        let mut i: usize = 0;
        while i < self.watches.len()
            invariant
                i <= self.watches@.len(),
                out@.len() == i,
                forall|j: int| 0 <= j < i ==> (#[trigger] out@[j])@ == self.watches@[j].name@,
            decreases self.watches@.len() - i,
        {
            out.push(self.watches[i].name.as_str());
            i += 1;
        }
        out
    }

    /// Index of the first watch with a given name.
    pub fn name_index(&self, name: &str) -> (r: Option<usize>)
        ensures
            match r {
                Some(i) => i < self.watches@.len() && first_named(self.view().watches, name@)
                    == Some(i as int),
                None => first_named(self.view().watches, name@) is None,
            },
    {
        let ghost all = self.view().watches;
        let mut found: Option<usize> = None;
        let mut i: usize = 0;
        assert(all.subrange(0, 0) =~= Seq::<WatchModel>::empty());
        while i < self.watches.len()
            invariant
                i <= self.watches@.len(),
                all == watches_view(self.watches@),
                match found {
                    Some(f) => f < i && first_named(all.subrange(0, i as int), name@) == Some(
                        f as int,
                    ),
                    None => first_named(all.subrange(0, i as int), name@) is None,
                },
            decreases self.watches@.len() - i,
        {
            assert(all.subrange(0, i + 1).drop_last() =~= all.subrange(0, i as int));
            assert(all.subrange(0, i + 1).last() == self.watches@[i as int].view());
            if found.is_none() && crate::text::same(self.watches[i].name.as_str(), name) {
                found = Some(i);
            }
            i += 1;
        }
        assert(all.subrange(0, i as int) =~= all);
        found
    }

    /// How often a watch fired.
    pub fn fire_count(&self, idx: usize) -> (r: u32)
        requires
            idx < self.view().fire_counts.len(),
        ensures
            r == self.view().fire_counts[idx as int],
    {
        self.fire_counts[idx]
    }
}

impl Default for WatchRegistry {
    fn default() -> (r: WatchRegistry)
        ensures
            r.wf(),
            r.view() == RegistryModel::empty(),
    {
        WatchRegistry::new()
    }
}

} // verus!
