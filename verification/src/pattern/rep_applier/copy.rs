//! Loops that copy bytes from one pointer to another.

use crate::pattern::loop_descriptor as loops;
use crate::pattern::loop_descriptor::{
    BulkClass, IndirectRead, LoopDescriptor, LoopModel, PointerEntry, PointerModel, StoreModel,
    WriteEntry,
};
use crate::pattern::rep_applier as rep;
use crate::pattern::rep_applier::laws;
use crate::pattern::rep_applier::{ApplyOutcome, CommitMode, Context, OutcomeModel};
use crate::program::CompiledProgram;
use crate::state;
use crate::state::{State, StateModel, WindowModel};
use vstd::prelude::*;

verus! {

// ---------------------------------------------------------------------------
// Shape
// ---------------------------------------------------------------------------

/// The registers of a copy.
#[verifier::ext_equal]
pub struct CopyShape {
    pub dst: PointerModel,
    pub src: PointerModel,
    pub dst_segment: Seq<char>,
    pub src_segment: Seq<char>,
    pub src_scaled: bool,
}

/// Why a write does not copy from `src` to `dst`.
pub open spec fn pointer_complaint(w: StoreModel, dst: Seq<char>, src: Seq<char>) -> Option<
    Seq<char>,
> {
    match (w.parts, w.read) {
        (None, _) => Some("Copy write missing addr_decomposition"@),
        (Some((_, p)), read) => if p != dst {
            Some("Copy writes disagree on dst pointer"@)
        } else {
            match read {
                None => Some("Copy write missing val_indirect_read"@),
                Some(r) => if r.pointer != src {
                    Some("Copy writes disagree on src pointer"@)
                } else {
                    None
                },
            }
        },
    }
}

/// Why a write does not copy between the two segments.
pub open spec fn segment_complaint(
    w: StoreModel,
    dst: Seq<char>,
    src: Seq<char>,
    scaled: bool,
) -> Option<Seq<char>> {
    if (w.parts->0).0 != dst {
        Some("Copy writes disagree on dst seg"@)
    } else if w.read->0.segment != Some(src) {
        Some("Copy writes disagree on src seg"@)
    } else if w.read->0.scaled != scaled {
        Some("Copy writes disagree on src seg scaling"@)
    } else {
        None
    }
}

/// The first complaint about the pointers of the writes.
pub open spec fn first_pointer_complaint(
    writes: Seq<StoreModel>,
    dst: Seq<char>,
    src: Seq<char>,
) -> Option<Seq<char>>
    decreases writes.len(),
{
    if writes.len() == 0 {
        None
    } else {
        match first_pointer_complaint(writes.drop_last(), dst, src) {
            Some(m) => Some(m),
            None => pointer_complaint(writes.last(), dst, src),
        }
    }
}

/// The first complaint about the segments of the writes.
pub open spec fn first_segment_complaint(
    writes: Seq<StoreModel>,
    dst: Seq<char>,
    src: Seq<char>,
    scaled: bool,
) -> Option<Seq<char>>
    decreases writes.len(),
{
    if writes.len() == 0 {
        None
    } else {
        match first_segment_complaint(writes.drop_last(), dst, src, scaled) {
            Some(m) => Some(m),
            None => segment_complaint(writes.last(), dst, src, scaled),
        }
    }
}

/// The registers of a copy whose first write goes from `src` to `dst`.
pub open spec fn shape_of(d: LoopModel, dst_name: Seq<char>, src_name: Seq<char>) -> Result<
    CopyShape,
    Seq<char>,
> {
    let first = d.writes[0];
    if dst_name == src_name {
        Err("Copy dst and src pointer names match"@)
    } else if first_pointer_complaint(d.writes, dst_name, src_name) is Some {
        Err(first_pointer_complaint(d.writes, dst_name, src_name)->0)
    } else {
        match (rep::pointer_named(d.pointers, dst_name), rep::pointer_named(d.pointers, src_name)) {
            (Some(dst), Some(src)) => if dst.step != src.step {
                Err("Copy pointers have different base_step"@)
            } else if dst.flag != src.flag || dst.bit != src.bit {
                Err("Copy pointers gated by different direction flags"@)
            } else if d.writes.len() != dst.step {
                Err("writes.len() != base_step (per-iter byte count mismatch)"@)
            } else {
                match first.read->0.segment {
                    None => Err("Copy val_indirect_read has no seg decomposition"@),
                    Some(src_segment) => {
                        let dst_segment = (first.parts->0).0;
                        let src_scaled = first.read->0.scaled;
                        match first_segment_complaint(
                            d.writes,
                            dst_segment,
                            src_segment,
                            src_scaled,
                        ) {
                            Some(m) => Err(m),
                            None => Ok(
                                CopyShape { dst, src, dst_segment, src_segment, src_scaled },
                            ),
                        }
                    },
                }
            },
            _ => Err("Copy pointer names not found in descriptor.pointers"@),
        }
    }
}

/// The registers of a copy, or the reason why there are none.
pub open spec fn copy_shape(d: LoopModel) -> Result<CopyShape, Seq<char>> {
    if d.pointers.len() != 2 {
        Err("Copy expects exactly two pointers"@)
    } else if d.writes.len() == 0 {
        Err("Copy expects at least one write"@)
    } else {
        match (d.writes[0].parts, d.writes[0].read) {
            (Some((_, dst_name)), Some(read)) => shape_of(d, dst_name, read.pointer),
            _ => Err("Copy needs addr_decomposition + val_indirect_read on first write"@),
        }
    }
}

/// The registers of a copy by reference.
struct ShapeRefs<'a> {
    dst: &'a PointerEntry,
    src: &'a PointerEntry,
    dst_segment: &'a String,
    src_segment: &'a String,
    src_scaled: bool,
}

impl<'a> ShapeRefs<'a> {
    /// The value of a shape.
    spec fn view(&self) -> CopyShape {
        CopyShape {
            dst: self.dst.view(),
            src: self.src.view(),
            dst_segment: self.dst_segment@,
            src_segment: self.src_segment@,
            src_scaled: self.src_scaled,
        }
    }
}

/// Does an optional reason stand for `model`?
pub open spec fn reason_is(r: Option<&'static str>, model: Option<Seq<char>>) -> bool {
    match r {
        Some(m) => model == Some(m@),
        None => model is None,
    }
}

/// Checks the pointers of one write.
fn check_pointers(w: &WriteEntry, dst: &String, src: &String) -> (r: Option<&'static str>)
    ensures
        reason_is(r, pointer_complaint(w.view(), dst@, src@)),
{
    match &w.addr_decomposition {
        None => Some("Copy write missing addr_decomposition"),
        Some((_, p)) => {
            if *p != *dst {
                return Some("Copy writes disagree on dst pointer");
            }
            match &w.val_indirect_read {
                None => Some("Copy write missing val_indirect_read"),
                Some(read) => if read.pointer_property != *src {
                    Some("Copy writes disagree on src pointer")
                } else {
                    None
                },
            }
        },
    }
}

/// Checks the segments of one write.
fn check_segments(w: &WriteEntry, dst: &String, src: &String, scaled: bool) -> (r: Option<
    &'static str,
>)
    requires
        w.view().parts is Some,
        w.view().read is Some,
    ensures
        reason_is(r, segment_complaint(w.view(), dst@, src@, scaled)),
{
    if let Some((segment, _)) = &w.addr_decomposition {
        if *segment != *dst {
            return Some("Copy writes disagree on dst seg");
        }
    }
    if let Some(read) = &w.val_indirect_read {
        match &read.seg_property {
            Some(segment) => {
                if *segment != *src {
                    return Some("Copy writes disagree on src seg");
                }
            },
            None => {
                return Some("Copy writes disagree on src seg");
            },
        }
        if read.seg_times_sixteen != scaled {
            return Some("Copy writes disagree on src seg scaling");
        }
    }
    None
}

/// A complaint about a beginning of the writes is the first complaint.
proof fn lemma_pointer_complaint_stays(
    writes: Seq<StoreModel>,
    dst: Seq<char>,
    src: Seq<char>,
    n: int,
)
    requires
        0 <= n <= writes.len(),
        first_pointer_complaint(writes.subrange(0, n), dst, src) is Some,
    ensures
        first_pointer_complaint(writes, dst, src) == first_pointer_complaint(
            writes.subrange(0, n),
            dst,
            src,
        ),
    decreases writes.len() - n,
{
    if n == writes.len() {
        assert(writes.subrange(0, n) =~= writes);
    } else {
        assert(writes.subrange(0, n + 1).drop_last() =~= writes.subrange(0, n));
        lemma_pointer_complaint_stays(writes, dst, src, n + 1);
    }
}

/// A complaint about a beginning of the writes is the first complaint.
proof fn lemma_segment_complaint_stays(
    writes: Seq<StoreModel>,
    dst: Seq<char>,
    src: Seq<char>,
    scaled: bool,
    n: int,
)
    requires
        0 <= n <= writes.len(),
        first_segment_complaint(writes.subrange(0, n), dst, src, scaled) is Some,
    ensures
        first_segment_complaint(writes, dst, src, scaled) == first_segment_complaint(
            writes.subrange(0, n),
            dst,
            src,
            scaled,
        ),
    decreases writes.len() - n,
{
    if n == writes.len() {
        assert(writes.subrange(0, n) =~= writes);
    } else {
        assert(writes.subrange(0, n + 1).drop_last() =~= writes.subrange(0, n));
        lemma_segment_complaint_stays(writes, dst, src, scaled, n + 1);
    }
}

/// Checks the pointers of all writes.
fn check_all_pointers(writes: &Vec<WriteEntry>, dst: &String, src: &String) -> (r: Option<
    &'static str,
>)
    ensures
        reason_is(r, first_pointer_complaint(loops::stores_view(writes@), dst@, src@)),
        r is None ==> forall|i: int|
            0 <= i < writes@.len() ==> (#[trigger] writes@[i]).view().parts is Some
                && writes@[i].view().read is Some,
{
    let ghost all = loops::stores_view(writes@);
    let mut i: usize = 0;
    assert(all.subrange(0, 0) =~= Seq::<StoreModel>::empty());
    while i < writes.len()
        invariant
            i <= writes@.len(),
            all == loops::stores_view(writes@),
            first_pointer_complaint(all.subrange(0, i as int), dst@, src@) is None,
            forall|j: int|
                0 <= j < i ==> (#[trigger] writes@[j]).view().parts is Some
                    && writes@[j].view().read is Some,
        decreases writes@.len() - i,
    {
        assert(all.subrange(0, i + 1).drop_last() =~= all.subrange(0, i as int));
        assert(all.subrange(0, i + 1).last() == writes@[i as int].view());
        if let Some(m) = check_pointers(&writes[i], dst, src) {
            proof {
                lemma_pointer_complaint_stays(all, dst@, src@, i + 1);
            }
            return Some(m);
        }
        i += 1;
    }
    assert(all.subrange(0, i as int) =~= all);
    None
}

/// Checks the segments of all writes.
fn check_all_segments(writes: &Vec<WriteEntry>, dst: &String, src: &String, scaled: bool) -> (r:
    Option<&'static str>)
    requires
        forall|i: int|
            0 <= i < writes@.len() ==> (#[trigger] writes@[i]).view().parts is Some
                && writes@[i].view().read is Some,
    ensures
        reason_is(r, first_segment_complaint(loops::stores_view(writes@), dst@, src@, scaled)),
{
    let ghost all = loops::stores_view(writes@);
    let mut i: usize = 0;
    assert(all.subrange(0, 0) =~= Seq::<StoreModel>::empty());
    while i < writes.len()
        invariant
            i <= writes@.len(),
            all == loops::stores_view(writes@),
            first_segment_complaint(all.subrange(0, i as int), dst@, src@, scaled) is None,
            forall|i: int|
                0 <= i < writes@.len() ==> (#[trigger] writes@[i]).view().parts is Some
                    && writes@[i].view().read is Some,
        decreases writes@.len() - i,
    {
        assert(all.subrange(0, i + 1).drop_last() =~= all.subrange(0, i as int));
        assert(all.subrange(0, i + 1).last() == writes@[i as int].view());
        if let Some(m) = check_segments(&writes[i], dst, src, scaled) {
            proof {
                lemma_segment_complaint_stays(all, dst@, src@, scaled, i + 1);
            }
            return Some(m);
        }
        i += 1;
    }
    assert(all.subrange(0, i as int) =~= all);
    None
}

/// Does a result stand for a shape or the reason why there is none?
spec fn shape_is(r: Result<ShapeRefs<'_>, &'static str>, model: Result<CopyShape, Seq<char>>) -> bool {
    match r {
        Ok(x) => model == Ok::<CopyShape, Seq<char>>(x.view()),
        Err(m) => model == Err::<CopyShape, Seq<char>>(m@),
    }
}

/// Finds the registers of a copy.
fn find_shape<'a>(descriptor: &'a LoopDescriptor) -> (r: Result<ShapeRefs<'a>, &'static str>)
    ensures
        shape_is(r, copy_shape(descriptor.view())),
        r matches Ok(x) ==> exists|i: int|
            0 <= i < descriptor.pointers@.len() && descriptor.pointers@[i] == *x.dst,
{
    let ghost d = descriptor.view();
    if descriptor.pointers.len() != 2 {
        return Err("Copy expects exactly two pointers");
    }
    if descriptor.writes.len() == 0 {
        return Err("Copy expects at least one write");
    }
    let first: &'a WriteEntry = &descriptor.writes[0];
    assert(d.writes[0] == first.view());
    let (dst_segment, dst_name, read): (&'a String, &'a String, &'a IndirectRead) = match (
        &first.addr_decomposition,
        &first.val_indirect_read,
    ) {
        (Some((s, p)), Some(read)) => (s, p, read),
        _ => {
            return Err("Copy needs addr_decomposition + val_indirect_read on first write");
        },
    };
    let src_name: &'a String = &read.pointer_property;
    if *dst_name == *src_name {
        return Err("Copy dst and src pointer names match");
    }
    if let Some(m) = check_all_pointers(&descriptor.writes, dst_name, src_name) {
        return Err(m);
    }
    let (dst, src): (&'a PointerEntry, &'a PointerEntry) = match (
        rep::find_pointer(&descriptor.pointers, dst_name),
        rep::find_pointer(&descriptor.pointers, src_name),
    ) {
        (Some(a), Some(b)) => (a, b),
        _ => {
            return Err("Copy pointer names not found in descriptor.pointers");
        },
    };
    if dst.base_step != src.base_step {
        return Err("Copy pointers have different base_step");
    }
    if dst.flag_property != src.flag_property || dst.flag_bit != src.flag_bit {
        return Err("Copy pointers gated by different direction flags");
    }
    if dst.base_step < 0 || descriptor.writes.len() != dst.base_step as usize {
        return Err("writes.len() != base_step (per-iter byte count mismatch)");
    }
    let src_segment: &'a String = match &read.seg_property {
        Some(s) => s,
        None => {
            return Err("Copy val_indirect_read has no seg decomposition");
        },
    };
    if let Some(m) = check_all_segments(
        &descriptor.writes,
        dst_segment,
        src_segment,
        read.seg_times_sixteen,
    ) {
        return Err(m);
    }
    Ok(
        ShapeRefs {
            dst,
            src,
            dst_segment,
            src_segment,
            src_scaled: read.seg_times_sixteen,
        },
    )
}

// ---------------------------------------------------------------------------
// The plan
// ---------------------------------------------------------------------------

/// What a copy does: `n` iterations of `step` bytes each, from offset `src_ptr`
/// behind `src_base` to offset `dst_ptr` behind `dst_base`.
#[verifier::ext_equal]
pub struct CopyModel {
    pub n: i32,
    pub step: i32,
    pub down: bool,
    pub dst_ptr: i32,
    pub src_ptr: i32,
    pub dst_base: int,
    pub src_base: int,
}

/// Does a window hold the whole address range?
pub open spec fn window_holds(w: Option<WindowModel>, from: int, to: int) -> bool {
    w matches Some(w) && from >= w.base && to <= w.end
}

/// The plan of a copy between given registers.
pub open spec fn planned(shape: CopyShape, c: Context, n: i32) -> Result<CopyModel, OutcomeModel> {
    match (c.get(shape.dst.prior), c.get(shape.src.prior)) {
        (None, _) => rep::unsupported("dst pointer slot unresolved"@),
        (Some(_), None) => rep::unsupported("src pointer slot unresolved"@),
        (Some(dst_ptr), Some(src_ptr)) => match (c.get(shape.dst_segment), c.get(
            shape.src_segment,
        )) {
            (None, _) => rep::unsupported("dst seg slot unresolved"@),
            (Some(_), None) => rep::unsupported("src seg slot unresolved"@),
            (Some(dst_segment), Some(src_segment)) => match c.get(shape.dst.flag) {
                None => rep::unsupported("flag_property unresolved"@),
                Some(flags) => {
                    let step = shape.dst.step;
                    let down = rep::steps_down(flags, shape.dst.bit);
                    let dst = rep::covered(dst_ptr as int, n as int, step as int, down);
                    let src = rep::covered(src_ptr as int, n as int, step as int, down);
                    let dst_base = dst_segment * 16;
                    let src_base = if shape.src_scaled {
                        src_segment * 16
                    } else {
                        src_segment as int
                    };
                    if !rep::within_segment(dst) {
                        rep::unsupported("dst pointer would wrap past 16-bit segment"@)
                    } else if !rep::within_segment(src) {
                        rep::unsupported("src pointer would wrap past 16-bit segment"@)
                    } else if c.program.touches_virtual(c.state, dst_base + dst.0, dst_base + dst.1) {
                        Err(
                            OutcomeModel::PerIterFallback(
                                "destination range overlaps virtual region"@,
                            ),
                        )
                    } else if !window_holds(
                        c.state.window,
                        src_base + src.0,
                        src_base + src.1,
                    ) && c.program.touches_virtual(c.state, src_base + src.0, src_base + src.1) {
                        Err(OutcomeModel::PerIterFallback("source range overlaps virtual region"@))
                    } else {
                        Ok(CopyModel { n, step, down, dst_ptr, src_ptr, dst_base, src_base })
                    }
                },
            },
        },
    }
}

/// The plan of a copy, or the outcome that says why there is none.
pub open spec fn copy_plan(d: LoopModel, c: Context, commit: CommitMode) -> Result<
    CopyModel,
    OutcomeModel,
> {
    match rep::begun(d, c, commit, BulkClass::Copy, "not Copy class"@) {
        Ok(n) => match copy_shape(d) {
            Ok(shape) => planned(shape, c, n),
            Err(m) => rep::unsupported(m),
        },
        Err(o) => Err(o),
    }
}

/// A plan in executable form.
struct CopyPlan {
    n: i32,
    step: i32,
    down: bool,
    dst_ptr: i32,
    src_ptr: i32,
    dst_base: i64,
    src_base: i64,
}

impl CopyPlan {
    /// The value of a plan.
    spec fn view(&self) -> CopyModel {
        CopyModel {
            n: self.n,
            step: self.step,
            down: self.down,
            dst_ptr: self.dst_ptr,
            src_ptr: self.src_ptr,
            dst_base: self.dst_base as int,
            src_base: self.src_base as int,
        }
    }

    /// The bounds that keep addresses small.
    spec fn small(&self) -> bool {
        &&& 0 < self.n <= 0x10000
        &&& 0 < self.step <= 0x10000
        &&& -0x10000 <= self.dst_ptr <= 0x10000
        &&& -0x10000 <= self.src_ptr <= 0x10000
        &&& -0x8_0000_0000 <= self.dst_base <= 0x8_0000_0000
        &&& -0x8_0000_0000 <= self.src_base <= 0x8_0000_0000
        &&& self.n * self.step <= 0x10000
    }
}

/// Makes the plan of a copy between given registers.
fn plan_between(
    shape: &ShapeRefs<'_>,
    program: &CompiledProgram,
    state: &State,
    slots: &[i32],
    n: i32,
) -> (r: Result<CopyPlan, ApplyOutcome>)
    requires
        state.wf(),
        program.view().fits(slots@),
        shape.dst.flag_bit < 32,
        shape.dst.base_step > 0,
        n > 0,
    ensures
        match r {
            Ok(plan) => planned(
                shape.view(),
                Context { program: program.view(), state: state@, slots: slots@ },
                n,
            ) == Ok::<CopyModel, OutcomeModel>(plan.view()) && plan.small(),
            Err(o) => planned(
                shape.view(),
                Context { program: program.view(), state: state@, slots: slots@ },
                n,
            ) == Err::<CopyModel, OutcomeModel>(o.view()),
        },
{
    let dst_ptr: i32 = match program.read_prop(state, slots, shape.dst.self_property.as_str()) {
        Some(v) => v,
        None => {
            return Err(ApplyOutcome::Unsupported("dst pointer slot unresolved"));
        },
    };
    let src_ptr: i32 = match program.read_prop(state, slots, shape.src.self_property.as_str()) {
        Some(v) => v,
        None => {
            return Err(ApplyOutcome::Unsupported("src pointer slot unresolved"));
        },
    };
    let dst_segment: i32 = match program.read_prop(state, slots, shape.dst_segment.as_str()) {
        Some(v) => v,
        None => {
            return Err(ApplyOutcome::Unsupported("dst seg slot unresolved"));
        },
    };
    let src_segment: i32 = match program.read_prop(state, slots, shape.src_segment.as_str()) {
        Some(v) => v,
        None => {
            return Err(ApplyOutcome::Unsupported("src seg slot unresolved"));
        },
    };
    let flags: i32 = match program.read_prop(state, slots, shape.dst.flag_property.as_str()) {
        Some(v) => v,
        None => {
            return Err(ApplyOutcome::Unsupported("flag_property unresolved"));
        },
    };
    let step: i32 = shape.dst.base_step;
    let down: bool = (flags >> shape.dst.flag_bit) & 1 != 0;
    let (dst_lo, dst_hi): (i64, i64) = rep::cover(dst_ptr, n, step, down);
    let (src_lo, src_hi): (i64, i64) = rep::cover(src_ptr, n, step, down);
    if dst_lo < 0 || dst_hi > 0x10000 {
        return Err(ApplyOutcome::Unsupported("dst pointer would wrap past 16-bit segment"));
    }
    if src_lo < 0 || src_hi > 0x10000 {
        return Err(ApplyOutcome::Unsupported("src pointer would wrap past 16-bit segment"));
    }
    assert(dst_lo < dst_hi && src_lo < src_hi && n <= 0x10000 && step <= 0x10000 && -0x10000
        <= dst_ptr <= 0x10000 && -0x10000 <= src_ptr <= 0x10000 && n * step <= 0x10000)
        by (nonlinear_arith)
        requires
            (dst_lo as int, dst_hi as int) == rep::covered(
                dst_ptr as int,
                n as int,
                step as int,
                down,
            ),
            (src_lo as int, src_hi as int) == rep::covered(
                src_ptr as int,
                n as int,
                step as int,
                down,
            ),
            dst_lo >= 0,
            src_lo >= 0,
            dst_hi <= 0x10000,
            src_hi <= 0x10000,
            n > 0,
            step > 0,
    ;
    let dst_base: i64 = dst_segment as i64 * 16;
    let src_base: i64 = if shape.src_scaled {
        src_segment as i64 * 16
    } else {
        src_segment as i64
    };
    if program.ranges_overlap_virtual(state, dst_base + dst_lo, dst_base + dst_hi) {
        return Err(ApplyOutcome::PerIterFallback("destination range overlaps virtual region"));
    }
    let in_window: bool = match &state.windowed_byte_array {
        Some(w) => src_base + src_lo >= w.window_base as i64 && src_base + src_hi
            <= w.window_end as i64,
        None => false,
    };
    if !in_window && program.ranges_overlap_virtual(state, src_base + src_lo, src_base + src_hi) {
        return Err(ApplyOutcome::PerIterFallback("source range overlaps virtual region"));
    }
    Ok(CopyPlan { n, step, down, dst_ptr, src_ptr, dst_base, src_base })
}

// ---------------------------------------------------------------------------
// The effect
// ---------------------------------------------------------------------------

impl CopyModel {
    /// What one iteration adds to the offsets.
    pub open spec fn delta(self) -> int {
        if self.down {
            -self.step
        } else {
            self.step as int
        }
    }
}

impl StateModel {
    /// The state after the first `k` bytes of the iteration that copies from
    /// `src` to `dst`.
    pub open spec fn moved_round(self, src: int, dst: int, k: nat) -> StateModel
        decreases k,
    {
        if k == 0 {
            self
        } else {
            let before = self.moved_round(src, dst, (k - 1) as nat);
            let from = (src + (k - 1)) as i32;
            before.after_read(from).put(dst + (k - 1), state::low_byte(before.read(from)))
        }
    }

    /// The state after `i` iterations of `step` bytes that move by `delta`.
    pub open spec fn moved_rounds(
        self,
        src: int,
        dst: int,
        step: nat,
        delta: int,
        i: nat,
    ) -> StateModel
        decreases i,
    {
        if i == 0 {
            self
        } else {
            self.moved_rounds(src, dst, step, delta, (i - 1) as nat).moved_round(
                src + (i - 1) * delta,
                dst + (i - 1) * delta,
                step,
            )
        }
    }

    /// The state after a copy: bytes are read and stored one at a time, in the
    /// order of the iterations.
    pub open spec fn copied(self, plan: CopyModel) -> StateModel {
        self.moved_rounds(
            plan.src_base + plan.src_ptr,
            plan.dst_base + plan.dst_ptr,
            plan.step as nat,
            plan.delta(),
            plan.n as nat,
        )
    }
}

/// Outcome and state after applying a copy.
pub open spec fn copy_result(d: LoopModel, c: Context, commit: CommitMode) -> (
    OutcomeModel,
    StateModel,
) {
    match copy_plan(d, c, commit) {
        Ok(plan) => {
            let s = c.state.copied(plan);
            let shape = copy_shape(d)->Ok_0;
            (
                OutcomeModel::Applied(plan.n),
                if commit == CommitMode::Full {
                    s.committed(
                        shape.dst.property,
                        rep::low_word(plan.dst_ptr + plan.n * plan.delta()),
                    ).committed(
                        shape.src.property,
                        rep::low_word(plan.src_ptr + plan.n * plan.delta()),
                    ).committed(d.counter->0.property, 0).advanced(d, c.program, c.slots, plan.n)
                } else {
                    s
                },
            )
        },
        Err(o) => (o, c.state),
    }
}

/// Moves the bytes of a plan.
fn run_copy(state: &mut State, plan: &CopyPlan)
    requires
        old(state).wf(),
        plan.small(),
    ensures
        final(state).wf(),
        final(state)@ == old(state)@.copied(plan.view()),
{
    let ghost m = plan.view();
    let ghost start = state@;
    let src: i64 = plan.src_base + plan.src_ptr as i64;
    let dst: i64 = plan.dst_base + plan.dst_ptr as i64;
    if !plan.down && src >= 0 && dst >= 0 {
        assert(0 < plan.n * plan.step) by (nonlinear_arith)
            requires
                plan.n > 0,
                plan.step > 0,
        ;
        let total: i64 = plan.n as i64 * plan.step as i64;
        state.copy_linear(src as u64, dst as u64, total as u64);
        proof {
            laws::law_copy_is_iterated(
                start,
                src as int,
                dst as int,
                plan.step as nat,
                plan.n as nat,
            );
        }
        return;
    }
    let delta: i64 = if plan.down {
        -(plan.step as i64)
    } else {
        plan.step as i64
    };
    let mut i: i32 = 0;
    assert(0 * m.delta() == 0);
    while i < plan.n
        invariant
            0 <= i <= plan.n,
            plan.small(),
            m == plan.view(),
            delta == m.delta(),
            state.wf(),
            -0x9_0000_0000 <= src <= 0x9_0000_0000,
            -0x9_0000_0000 <= dst <= 0x9_0000_0000,
            state@ == start.moved_rounds(
                src as int,
                dst as int,
                plan.step as nat,
                m.delta(),
                i as nat,
            ),
        decreases plan.n - i,
    {
        assert(-0x1_0000_0000 <= i * delta <= 0x1_0000_0000) by (nonlinear_arith)
            requires
                0 <= i <= 0x10000,
                -0x10000 <= delta <= 0x10000,
        ;
        let from: i64 = src + i as i64 * delta;
        let to: i64 = dst + i as i64 * delta;
        let ghost before = state@;
        let mut k: i64 = 0;
        while k < plan.step as i64
            invariant
                0 <= k <= plan.step <= 0x10000,
                -0xa_0000_0000 <= from <= 0xa_0000_0000,
                -0xa_0000_0000 <= to <= 0xa_0000_0000,
                state.wf(),
                state@ == before.moved_round(from as int, to as int, k as nat),
            decreases plan.step - k,
        {
            let byte: u8 = (state.read_mem((from + k) as i32) & 0xFF) as u8;
            state.bulk_store_byte(to + k, byte);
            k += 1;
        }
        i += 1;
    }
}

/// Applies a loop that copies bytes, in memory only.
pub fn apply_copy(
    descriptor: &LoopDescriptor,
    program: &CompiledProgram,
    state: &mut State,
    slots: &[i32],
) -> (r: ApplyOutcome)
    requires
        old(state).wf(),
        program.view().fits(slots@),
        rep::bits_in_word(descriptor.view()),
    ensures
        final(state).wf(),
        (r.view(), final(state)@) == copy_result(
            descriptor.view(),
            Context { program: program.view(), state: old(state)@, slots: slots@ },
            CommitMode::MemoryOnly,
        ),
{
    apply_copy_with_commit(descriptor, program, state, slots, CommitMode::MemoryOnly)
}

/// Applies a loop that copies bytes.
pub fn apply_copy_with_commit(
    descriptor: &LoopDescriptor,
    program: &CompiledProgram,
    state: &mut State,
    slots: &[i32],
    commit: CommitMode,
) -> (r: ApplyOutcome)
    requires
        old(state).wf(),
        program.view().fits(slots@),
        rep::bits_in_word(descriptor.view()),
    ensures
        final(state).wf(),
        (r.view(), final(state)@) == copy_result(
            descriptor.view(),
            Context { program: program.view(), state: old(state)@, slots: slots@ },
            commit,
        ),
{
    let ghost d = descriptor.view();
    let n: i32 = match rep::begin(
        descriptor,
        program,
        state,
        slots,
        commit,
        BulkClass::Copy,
        "not Copy class",
    ) {
        Ok(n) => n,
        Err(o) => {
            return o;
        },
    };
    let shape: ShapeRefs<'_> = match find_shape(descriptor) {
        Ok(x) => x,
        Err(m) => {
            return ApplyOutcome::Unsupported(m);
        },
    };
    proof {
        let i = choose|i: int|
            0 <= i < descriptor.pointers@.len() && descriptor.pointers@[i] == *shape.dst;
        assert(d.pointers[i] == shape.dst.view());
    }
    let plan: CopyPlan = match plan_between(&shape, program, state, slots, n) {
        Ok(plan) => plan,
        Err(o) => {
            return o;
        },
    };
    run_copy(state, &plan);
    if commit == CommitMode::Full {
        let step: i64 = if plan.down {
            -(plan.step as i64)
        } else {
            plan.step as i64
        };
        assert(-0x1_0000_0000 <= plan.n * step <= 0x1_0000_0000) by (nonlinear_arith)
            requires
                0 < plan.n <= 0x10000,
                -0x10000 <= step <= 0x10000,
        ;
        let shift: i64 = plan.n as i64 * step;
        let next_dst: i32 = rep::take_low_word(plan.dst_ptr as i64 + shift);
        let next_src: i32 = rep::take_low_word(plan.src_ptr as i64 + shift);
        rep::commit_pointer(state, shape.dst.property.as_str(), next_dst);
        rep::commit_pointer(state, shape.src.property.as_str(), next_src);
        if let Some(counter) = &descriptor.counter {
            rep::commit_pointer(state, counter.property.as_str(), 0);
        }
        rep::commit_ip_and_cycles(program, state, slots, descriptor, plan.n);
    }
    ApplyOutcome::Applied { iterations: plan.n }
}

} // verus!
