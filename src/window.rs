//! The sliding window of blocks: which blocks exist, when the window
//! advances, and the collapse animation of the block that leaves it.
use vstd::prelude::*;
use crate::chart::TIME_LIMIT;
use crate::feed::VISIBLE_BLOCKS;
use crate::note::TimelineNote;
use crate::reconcile::{
    BLOCK_SPAN_LIMIT, BlockView, FULL, Instruction, PrimitiveKey, block_rows_reconciled, blocks_distinct, blocks_fit,
    blocks_ordered, blocks_reconciled, notes_fit, reconcile_blocks, rows_distinct,
};
use crate::tempo::{MAX_BLOCK_DURATION, MIN_BLOCK_DURATION};

verus! {

/// Length of the collapse of the block leaving the window (microseconds).
pub const BLOCK_SHIFT_DURATION: u64 = 180_000;
/// Progress through the next-to-last block (parts per million) at which
/// the window starts to advance.
pub const SHIFT_TRIGGER_PROGRESS: u64 = 950_000;
/// Highest first block index: `TIME_LIMIT / MIN_BLOCK_DURATION`, rounded up.
pub const BASE_LIMIT: u64 = 833_333_333_334;

/// The collapse of block `removing_index` out of the window; when it ends
/// the window starts at `target_base_index`.
pub struct ShiftAnimation {
    pub target_base_index: u64,
    pub removing_index: u64,
    pub elapsed: u64,
}

/// What the renderer needs to lay out one block.
#[derive(Clone, Copy, Debug, PartialEq, Eq, Structural)]
pub struct BlockLayout {
    pub index: u64,
    /// Width of the "played" shading, in parts per million.
    pub coverage: u64,
    /// Collapse progress of a block leaving the window, in parts per million.
    pub collapse: Option<u64>,
    /// Size held at the measured value rather than flexible.
    pub frozen: bool,
}

/// One frame's output.
pub struct Frame {
    pub instructions: Vec<Instruction>,
    pub layouts: Vec<BlockLayout>,
    /// Position of the time marker within its block, in parts per million.
    pub indicator: u64,
}

pub struct TimelineView {
    pub blocks: Vec<BlockView>,
    pub cached_string_count: usize,
    pub base_block_index: u64,
    pub shift_animation: Option<ShiftAnimation>,
    pub indicator_block_index: Option<u64>,
    pub indicator_progress: u64,
}

/// The first block of the window that the rule asks for, with playback in
/// block `current` at `progress` through it: catch up at once when
/// playback has left the window, advance by one near the end of the
/// next-to-last block, else stay.
pub open spec fn spec_next_base(base: u64, current: u64, progress: u64) -> u64 {
    if current > base + VISIBLE_BLOCKS - 1 {
        (current - (VISIBLE_BLOCKS - 1)) as u64
    } else if current >= base + VISIBLE_BLOCKS - 2 && progress >= SHIFT_TRIGGER_PROGRESS {
        (base + 1) as u64
    } else {
        base
    }
}

pub fn next_base(base: u64, current: u64, progress: u64) -> (r: u64)
    requires
        base <= BASE_LIMIT,
    ensures
        r == spec_next_base(base, current, progress),
{
    if current > base + VISIBLE_BLOCKS - 1 {
        current - (VISIBLE_BLOCKS - 1)
    } else if current >= base + VISIBLE_BLOCKS - 2 && progress >= SHIFT_TRIGGER_PROGRESS {
        base + 1
    } else {
        base
    }
}

/// The block duration a frame works with: at least `MIN_BLOCK_DURATION`.
pub open spec fn frame_duration(block_duration: u64) -> u64 {
    if block_duration < MIN_BLOCK_DURATION { MIN_BLOCK_DURATION } else { block_duration }
}

/// How far `t` lies through its block, in parts per million.
pub open spec fn frame_progress(t: u64, d: u64) -> u64 {
    ((t % d) * FULL / (d as int)) as u64
}

/// The window after a frame without a collapse in flight, from first block
/// `b`: snap back to the current block after a backward seek, jump ahead
/// after a forward one, start collapsing the first block near the end of
/// the next-to-last one, or stay.
pub open spec fn settled_step(view: TimelineView, b: u64, current: u64, progress: u64) -> bool {
    if current < b {
        view.base_block_index == current && view.shift_animation is None
    } else if current > b + VISIBLE_BLOCKS - 1 {
        view.base_block_index == current - (VISIBLE_BLOCKS - 1) && view.shift_animation is None
    } else if current >= b + VISIBLE_BLOCKS - 2 && progress >= SHIFT_TRIGGER_PROGRESS {
        view.base_block_index == b && view.shift_animation == Some(ShiftAnimation {
            target_base_index: (b + 1) as u64,
            removing_index: b,
            elapsed: 0,
        })
    } else {
        view.base_block_index == b && view.shift_animation is None
    }
}

/// `p` is a prefix of `a`.
pub open spec fn has_prefix(a: Seq<Instruction>, p: Seq<Instruction>) -> bool {
    a.len() >= p.len() && forall|j: int| 0 <= j < p.len() ==> #[trigger] a[j] == p[j]
}

/// The index of the block whose collapse ends in a frame of `delta`.
pub open spec fn gone_index(view: TimelineView, delta: u64) -> Option<u64> {
    match view.shift_animation {
        Some(a) => if a.elapsed + delta >= BLOCK_SHIFT_DURATION { Some(a.removing_index) } else { None },
        None => None,
    }
}

/// Block `b`, about to be reconciled, is the block of `source` with its
/// index (with its rows) when there is one and its collapse did not just
/// end, and a fresh block otherwise.
pub open spec fn prior_block(source: Seq<BlockView>, gone: Option<u64>, strings: usize, b: BlockView) -> bool {
    if has_block(source, b.index) && gone != Some(b.index) {
        carried_from(source, b)
    } else {
        fresh_block(b, strings)
    }
}

proof fn lemma_prior_blocks(
    old_blocks: Seq<BlockView>,
    after_progress: Seq<BlockView>,
    progress_instrs: Seq<Instruction>,
    moved: Seq<BlockView>,
    pre: Seq<BlockView>,
    base: u64,
    strings: usize,
    same_strings: bool,
    gone: Option<u64>,
    rebuild: Seq<Instruction>,
)
    requires
        same_strings ==> {
            &&& forall|i: int| 0 <= i < after_progress.len() ==> carried_from(old_blocks, #[trigger] after_progress[i])
            &&& kept_or_destroyed(old_blocks, after_progress, progress_instrs)
            &&& forall|x: u64| destroys_block(progress_instrs, x) ==> gone == Some(x)
            &&& match gone { Some(x) => !has_block(after_progress, x), None => true }
            &&& moved.len() == after_progress.len()
            &&& forall|j: int| 0 <= j < moved.len() ==> (#[trigger] moved[j]).index == after_progress[j].index
                && moved[j].rows == after_progress[j].rows
        },
        !same_strings ==> moved.len() == 0,
        window_rebuilt(moved, pre, base, strings, rebuild),
        window_exact(pre, base, strings),
    ensures
        forall|i: int| 0 <= i < pre.len() ==> prior_block(
            if same_strings { old_blocks } else { Seq::<BlockView>::empty() }, gone, strings, #[trigger] pre[i]),
{
    let source = if same_strings { old_blocks } else { Seq::<BlockView>::empty() };
    assert forall|i: int| 0 <= i < pre.len() implies prior_block(source, gone, strings, #[trigger] pre[i]) by {
        let x = pre[i].index;
        assert(x == base + i);
        if has_block(source, x) && gone != Some(x) {
            let j0 = choose|j0: int| 0 <= j0 < source.len() && (#[trigger] source[j0]).index == x;
            assert(old_blocks[j0].index == x);
            if !has_block(after_progress, x) {
                assert(destroys_block(progress_instrs, x));
            }
            let j = choose|j: int| 0 <= j < after_progress.len() && (#[trigger] after_progress[j]).index == x;
            assert(moved[j].index == x);
            assert(pre[moved[j].index - base] == moved[j]);
            assert(carried_from(old_blocks, after_progress[j]));
            let jo = choose|jo: int| 0 <= jo < old_blocks.len() && (#[trigger] old_blocks[jo]).index == after_progress[j].index
                && old_blocks[jo].rows == after_progress[j].rows;
            assert(old_blocks[jo].index == pre[i].index && old_blocks[jo].rows == pre[i].rows);
        } else {
            if has_block(moved, (base + i) as u64) {
                let j = choose|j: int| 0 <= j < moved.len() && (#[trigger] moved[j]).index == x;
                assert(after_progress[j].index == x);
                assert(carried_from(old_blocks, after_progress[j]));
                let jo = choose|jo: int| 0 <= jo < old_blocks.len() && (#[trigger] old_blocks[jo]).index == after_progress[j].index
                    && old_blocks[jo].rows == after_progress[j].rows;
                assert(has_block(source, x));
                assert(has_block(after_progress, x));
            }
            assert(fresh_block(pre[i], strings));
        }
    }
}

/// The block instructions of a frame whose string count did not change:
/// every block leaving the window is destroyed, every new one created,
/// and none created twice.
proof fn lemma_frame_blocks(
    old_blocks: Seq<BlockView>,
    gone: Option<u64>,
    after_progress: Seq<BlockView>,
    progress_instrs: Seq<Instruction>,
    moved: Seq<BlockView>,
    pre: Seq<BlockView>,
    base: u64,
    strings: usize,
    rebuild: Seq<Instruction>,
    frame: Seq<Instruction>,
)
    requires
        kept_or_destroyed(old_blocks, after_progress, progress_instrs),
        forall|x: u64| destroys_block(progress_instrs, x) ==> gone == Some(x),
        match gone { Some(x) => destroys_block(progress_instrs, x), None => true },
        forall|k: int| 0 <= k < progress_instrs.len() ==> (#[trigger] progress_instrs[k]) is DestroyBlock,
        forall|i: int| 0 <= i < after_progress.len() ==> carried_from(old_blocks, #[trigger] after_progress[i]),
        match gone { Some(x) => !has_block(after_progress, x), None => true },
        moved.len() == after_progress.len(),
        forall|j: int| 0 <= j < moved.len() ==> (#[trigger] moved[j]).index == after_progress[j].index,
        window_rebuilt(moved, pre, base, strings, rebuild),
        has_prefix(frame, progress_instrs + rebuild),
        forall|k: int| (progress_instrs + rebuild).len() <= k < frame.len() ==> (#[trigger] frame[k]) is Create || frame[k] is Destroy,
    ensures
        forall|j: int| 0 <= j < old_blocks.len() && !(base <= (#[trigger] old_blocks[j]).index < base + VISIBLE_BLOCKS)
            ==> destroys_block(frame, old_blocks[j].index),
        forall|i: int| 0 <= i < VISIBLE_BLOCKS && !(#[trigger] has_block(old_blocks, (base + i) as u64) && gone != Some((base + i) as u64))
            ==> frame.contains(Instruction::CreateBlock { index: (base + i) as u64, rows: strings }),
        forall|k1: int, k2: int| 0 <= k1 < k2 < frame.len() && (#[trigger] frame[k1]) is CreateBlock ==> frame[k1] != #[trigger] frame[k2],
{
    let pr = progress_instrs + rebuild;
    assert forall|j: int| 0 <= j < old_blocks.len() && !(base <= (#[trigger] old_blocks[j]).index < base + VISIBLE_BLOCKS)
        implies destroys_block(frame, old_blocks[j].index) by {
        let x = old_blocks[j].index;
        if destroys_block(progress_instrs, x) {
            let k = choose|k: int| 0 <= k < progress_instrs.len() && #[trigger] progress_instrs[k] == (Instruction::DestroyBlock { index: x });
            assert(frame[k] == pr[k]);
        } else {
            assert(has_block(after_progress, x));
            let q = choose|q: int| 0 <= q < after_progress.len() && (#[trigger] after_progress[q]).index == x;
            assert(moved[q].index == x);
            assert(destroys_block(rebuild, moved[q].index));
            let k = choose|k: int| 0 <= k < rebuild.len() && #[trigger] rebuild[k] == (Instruction::DestroyBlock { index: x });
            assert(frame[progress_instrs.len() + k] == pr[progress_instrs.len() + k]);
        }
    }
    assert forall|i: int| 0 <= i < VISIBLE_BLOCKS && !(#[trigger] has_block(old_blocks, (base + i) as u64) && gone != Some((base + i) as u64))
        implies frame.contains(Instruction::CreateBlock { index: (base + i) as u64, rows: strings }) by {
        let x = (base + i) as u64;
        if has_block(moved, x) {
            let q = choose|q: int| 0 <= q < moved.len() && (#[trigger] moved[q]).index == x;
            assert(after_progress[q].index == x);
            assert(carried_from(old_blocks, after_progress[q]));
            let jo = choose|jo: int| 0 <= jo < old_blocks.len() && (#[trigger] old_blocks[jo]).index == after_progress[q].index
                && old_blocks[jo].rows == after_progress[q].rows;
            assert(has_block(old_blocks, x));
            assert(has_block(after_progress, x));
        }
        assert(rebuild.contains(Instruction::CreateBlock { index: x, rows: strings }));
        let k = choose|k: int| 0 <= k < rebuild.len() && rebuild[k] == Instruction::CreateBlock { index: x, rows: strings };
        assert(frame[progress_instrs.len() + k] == pr[progress_instrs.len() + k]);
    }
    assert forall|k1: int, k2: int| 0 <= k1 < k2 < frame.len() && (#[trigger] frame[k1]) is CreateBlock implies frame[k1] != #[trigger] frame[k2] by {
        if k2 < pr.len() {
            assert(frame[k1] == pr[k1] && frame[k2] == pr[k2]);
            if k1 < progress_instrs.len() {
                assert(pr[k1] == progress_instrs[k1]);
            } else if k2 >= progress_instrs.len() {
                assert(pr[k1] == rebuild[k1 - progress_instrs.len()]);
                assert(pr[k2] == rebuild[k2 - progress_instrs.len()]);
            }
        }
    }
}

proof fn lemma_prefix_destroys(a: Seq<Instruction>, p: Seq<Instruction>, x: u64)
    requires
        has_prefix(a, p),
        destroys_block(p, x),
    ensures
        destroys_block(a, x),
{
    let i = choose|i: int| 0 <= i < p.len() && #[trigger] p[i] == (Instruction::DestroyBlock { index: x });
    assert(a[i] == p[i]);
}

/// Every instruction is a block creation or destruction.
pub open spec fn block_level(s: Seq<Instruction>) -> bool {
    forall|j: int| 0 <= j < s.len() ==> (#[trigger] s[j]) is CreateBlock || s[j] is DestroyBlock
}

/// The shading of a block: full for a past block, `progress` for the
/// current one, none for a future one.
pub open spec fn spec_coverage(index: u64, current: u64, progress: u64) -> u64 {
    if index < current {
        FULL
    } else if index == current {
        progress
    } else {
        0
    }
}

pub fn overlay_coverage(index: u64, current: u64, progress: u64) -> (r: u64)
    ensures
        r == spec_coverage(index, current, progress),
{
    if index < current {
        FULL
    } else if index == current {
        progress
    } else {
        0
    }
}

/// The time marker moves three tenths of the way from `prev` to `target`.
pub open spec fn spec_blend(prev: u64, target: u64) -> u64 {
    if target >= prev {
        (prev + (target - prev) * 3 / 10) as u64
    } else {
        (prev - (prev - target) * 3 / 10) as u64
    }
}

pub fn blend(prev: u64, target: u64) -> (r: u64)
    requires
        prev <= FULL,
        target <= FULL,
    ensures
        r == spec_blend(prev, target),
        r <= FULL,
{
    if target >= prev {
        prev + (target - prev) * 3 / 10
    } else {
        prev - (prev - target) * 3 / 10
    }
}

/// The window covers `VISIBLE_BLOCKS` consecutive blocks from `base`, in
/// order, each with `strings` rows.
pub open spec fn window_exact(blocks: Seq<BlockView>, base: u64, strings: usize) -> bool {
    &&& blocks.len() == VISIBLE_BLOCKS
    &&& forall|i: int| 0 <= i < blocks.len() ==> (#[trigger] blocks[i]).index == base + i
        && blocks[i].rows@.len() == strings
}

/// A newly created block: empty rows, not collapsing, not held in size.
pub open spec fn fresh_block(b: BlockView, strings: usize) -> bool {
    &&& b.rows@.len() == strings
    &&& forall|s: int| 0 <= s < strings ==> (#[trigger] b.rows@[s])@.len() == 0
    &&& !b.is_removing
    &&& !b.frozen
}

/// `after` is the window from `base` built from `before`: blocks that stay
/// are kept as they were, missing ones are fresh; `instrs` destroys each
/// block that leaves, creates each one that is new, and does nothing else.
pub open spec fn window_rebuilt(before: Seq<BlockView>, after: Seq<BlockView>, base: u64, strings: usize, instrs: Seq<Instruction>) -> bool {
    &&& forall|j: int| 0 <= j < before.len() && base <= (#[trigger] before[j]).index < base + VISIBLE_BLOCKS
        ==> after[before[j].index - base] == before[j]
    &&& forall|i: int| 0 <= i < VISIBLE_BLOCKS && !has_block(before, (base + i) as u64) ==> fresh_block(#[trigger] after[i], strings)
    &&& forall|j: int| 0 <= j < before.len() && !(base <= (#[trigger] before[j]).index < base + VISIBLE_BLOCKS)
        ==> destroys_block(instrs, before[j].index)
    &&& forall|i: int| 0 <= i < VISIBLE_BLOCKS && !#[trigger] has_block(before, (base + i) as u64)
        ==> instrs.contains(Instruction::CreateBlock { index: (base + i) as u64, rows: strings })
    &&& forall|k: int| 0 <= k < instrs.len() ==> match #[trigger] instrs[k] {
        Instruction::DestroyBlock { index } => has_block(before, index) && !(base <= index < base + VISIBLE_BLOCKS),
        Instruction::CreateBlock { index, rows } => base <= index < base + VISIBLE_BLOCKS && !has_block(before, index) && rows == strings,
        _ => false,
    }
    &&& instrs.no_duplicates()
}

/// Block `b` has the index and rows of some block of `blocks`.
pub open spec fn carried_from(blocks: Seq<BlockView>, b: BlockView) -> bool {
    exists|j: int| 0 <= j < blocks.len() && (#[trigger] blocks[j]).index == b.index && blocks[j].rows == b.rows
}

pub open spec fn has_block(blocks: Seq<BlockView>, index: u64) -> bool {
    exists|i: int| 0 <= i < blocks.len() && (#[trigger] blocks[i]).index == index
}

pub open spec fn destroys_block(instrs: Seq<Instruction>, index: u64) -> bool {
    exists|i: int| 0 <= i < instrs.len() && #[trigger] instrs[i] == (Instruction::DestroyBlock { index })
}

/// Each block of `before` is still in `after` or destroyed by `instrs`.
pub open spec fn kept_or_destroyed(before: Seq<BlockView>, after: Seq<BlockView>, instrs: Seq<Instruction>) -> bool {
    forall|j: int| 0 <= j < before.len() ==> has_block(after, (#[trigger] before[j]).index) || destroys_block(instrs, before[j].index)
}


fn frame_position(current_time: u64, block_duration: u64) -> (r: (u64, u64, u64))
    requires
        current_time <= TIME_LIMIT,
        block_duration <= MAX_BLOCK_DURATION,
    ensures
        r.0 == frame_duration(block_duration),
        MIN_BLOCK_DURATION <= r.0 <= MAX_BLOCK_DURATION,
        r.1 == current_time / r.0,
        r.1 <= BASE_LIMIT,
        r.2 == frame_progress(current_time, r.0),
        r.2 <= FULL,
{
        let d = if block_duration < MIN_BLOCK_DURATION { MIN_BLOCK_DURATION } else { block_duration };
        let current = current_time / d;
        assert(current <= BASE_LIMIT) by (nonlinear_arith)
            requires
                current == current_time / d,
                d >= MIN_BLOCK_DURATION,
                current_time <= TIME_LIMIT,
        ;
        assert(current * d <= current_time) by (nonlinear_arith)
            requires
                current == current_time / d,
                d > 0,
        ;
        let within = current_time - current * d;
        assert(within < d) by (nonlinear_arith)
            requires
                current == current_time / d,
                within == current_time - current * d,
                d > 0,
        ;
        assert(within * FULL <= MAX_BLOCK_DURATION * FULL) by (nonlinear_arith)
            requires
                within < d <= MAX_BLOCK_DURATION,
        ;
        assert(within == current_time % d) by (nonlinear_arith)
            requires
                current == current_time / d,
                within == current_time - current * d,
                d > 0,
        ;
        let progress = within * FULL / d;
        assert(progress <= FULL) by (nonlinear_arith)
            requires
                progress == within * FULL / (d as int),
                within < d,
                d > 0,
        ;
    (d, current, progress)
}

fn append_instructions(instrs: &mut Vec<Instruction>, more: &Vec<Instruction>)
    ensures
        final(instrs)@ == old(instrs)@ + more@,
{
    let ghost head = instrs@;
    let mut k: usize = 0;
    while k < more.len()
        invariant
            k <= more@.len(),
            instrs@ == head + more@.subrange(0, k as int),
        decreases more.len() - k,
    {
        instrs.push(more[k]);
        proof {
            assert(more@.subrange(0, k + 1) =~= more@.subrange(0, k as int).push(more@[k as int]));
        }
        k = k + 1;
    }
    assert(more@.subrange(0, more@.len() as int) =~= more@);
}

impl TimelineView {
    /// Moves the window for playback in block `current` at `progress`
    /// through it: snap back, jump ahead, start a collapse, or extend the
    /// running collapse's target.
    fn move_window(&mut self, current: u64, progress: u64)
        requires
            old(self).wf(),
            old(self).shift_animation is Some ==> old(self).blocks@.len() > 0,
            current <= BASE_LIMIT,
            progress <= FULL,
        ensures
            final(self).wf(),
            final(self).base_block_index < old(self).base_block_index ==> final(self).base_block_index == current,
            final(self).cached_string_count == old(self).cached_string_count,
            final(self).indicator_block_index == old(self).indicator_block_index,
            final(self).indicator_progress == old(self).indicator_progress,
            final(self).blocks@.len() == old(self).blocks@.len(),
            forall|i: int| 0 <= i < final(self).blocks@.len() ==> (#[trigger] final(self).blocks@[i]).index == old(self).blocks@[i].index
                && final(self).blocks@[i].rows == old(self).blocks@[i].rows,
            (final(self).shift_animation is None || old(self).shift_animation is Some) ==> final(self).blocks == old(self).blocks,
            (final(self).shift_animation is Some && old(self).shift_animation is None) ==>
                forall|i: int| 0 <= i < final(self).blocks@.len() ==> (#[trigger] final(self).blocks@[i]).is_removing
                    == (old(self).blocks@[i].is_removing || old(self).blocks@[i].index == final(self).base_block_index),
            (old(self).blocks@.len() == 0 && old(self).shift_animation is None) ==>
                final(self).base_block_index == current && final(self).shift_animation is None,
            (old(self).blocks@.len() > 0 && old(self).shift_animation is None
                && exists|i: int| 0 <= i < old(self).blocks@.len() && (#[trigger] old(self).blocks@[i]).index == old(self).base_block_index
                    && !old(self).blocks@[i].is_removing)
                ==> settled_step(*final(self), old(self).base_block_index, current, progress),
            match old(self).shift_animation {
                Some(a) => {
                    &&& final(self).base_block_index == old(self).base_block_index
                    &&& final(self).shift_animation == Some(ShiftAnimation {
                        target_base_index: if current > old(self).base_block_index + VISIBLE_BLOCKS - 1
                            && current - (VISIBLE_BLOCKS - 1) > a.target_base_index {
                            (current - (VISIBLE_BLOCKS - 1)) as u64
                        } else {
                            a.target_base_index
                        },
                        removing_index: a.removing_index,
                        elapsed: a.elapsed,
                    })
                },
                None => true,
            },
    {
        if self.blocks.len() == 0 {
            self.base_block_index = current;
        }
        if current < self.base_block_index && self.shift_animation.is_none() {
            self.base_block_index = current;
        }
        if self.shift_animation.is_none() {
            let desired = next_base(self.base_block_index, current, progress);
            if current > self.base_block_index + VISIBLE_BLOCKS - 1 {
                self.base_block_index = desired;
            } else if desired > self.base_block_index {
                let started = self.start_shift_animation(desired);
                if !started {
                    self.base_block_index = desired;
                }
            }
        } else {
            if current > self.base_block_index + VISIBLE_BLOCKS - 1 {
                let a = match &self.shift_animation {
                    Some(a) => ShiftAnimation { target_base_index: a.target_base_index, removing_index: a.removing_index, elapsed: a.elapsed },
                    None => ShiftAnimation { target_base_index: 0, removing_index: 0, elapsed: 0 },
                };
                let caught_up = current - (VISIBLE_BLOCKS - 1);
                let target = if caught_up > a.target_base_index { caught_up } else { a.target_base_index };
                self.shift_animation = Some(ShiftAnimation { target_base_index: target, removing_index: a.removing_index, elapsed: a.elapsed });
            }
        }
    }
}

impl TimelineView {
    pub open spec fn wf(&self) -> bool {
        &&& blocks_ordered(self.blocks@)
        &&& blocks_distinct(self.blocks@)
        &&& forall|i: int| 0 <= i < self.blocks@.len() ==> (#[trigger] self.blocks@[i]).index <= BASE_LIMIT + VISIBLE_BLOCKS
        &&& forall|i: int| 0 <= i < self.blocks@.len() ==> (#[trigger] self.blocks@[i]).rows@.len() == self.cached_string_count
        &&& self.base_block_index <= BASE_LIMIT
        &&& self.indicator_progress <= FULL
        &&& match self.shift_animation {
            Some(a) => {
                &&& a.target_base_index > self.base_block_index
                &&& a.target_base_index <= BASE_LIMIT
                &&& a.removing_index == self.base_block_index
                &&& a.elapsed < BLOCK_SHIFT_DURATION
            },
            None => true,
        }
    }

    pub fn new() -> (r: TimelineView)
        ensures
            r.wf(),
            r.settled(),
            r.blocks@.len() == 0,
            r.base_block_index == 0,
            r.shift_animation is None,
            r.cached_string_count == 0,
            r.indicator_block_index is None,
            r.indicator_progress == 0,
    {
        TimelineView {
            blocks: Vec::new(),
            cached_string_count: 0,
            base_block_index: 0,
            shift_animation: None,
            indicator_block_index: None,
            indicator_progress: 0,
        }
    }

    /// Destroys every block and cancels the collapse; the window returns to 0.
    pub fn clear_all_blocks(&mut self, instrs: &mut Vec<Instruction>)
        requires
            old(self).wf(),
        ensures
            final(self).wf(),
            final(self).blocks@.len() == 0,
            final(self).base_block_index == 0,
            final(self).shift_animation is None,
            final(self).cached_string_count == old(self).cached_string_count,
            final(self).indicator_block_index == old(self).indicator_block_index,
            final(self).indicator_progress == old(self).indicator_progress,
            final(instrs)@ == old(instrs)@ + old(self).blocks@.map_values(|b: BlockView| Instruction::DestroyBlock { index: b.index }),
    {
        let ghost start = instrs@;
        let ghost blocks0 = self.blocks@;
        let mut i: usize = 0;
        while i < self.blocks.len()
            invariant
                self.blocks@ == blocks0,
                i <= blocks0.len(),
                instrs@ == start + blocks0.subrange(0, i as int).map_values(|b: BlockView| Instruction::DestroyBlock { index: b.index }),
            decreases blocks0.len() - i,
        {
            let index = self.blocks[i].index;
            instrs.push(Instruction::DestroyBlock { index });
            proof {
                assert(blocks0.subrange(0, i + 1).map_values(|b: BlockView| Instruction::DestroyBlock { index: b.index })
                    =~= blocks0.subrange(0, i as int).map_values(|b: BlockView| Instruction::DestroyBlock { index: b.index }).push(Instruction::DestroyBlock { index }));
            }
            i = i + 1;
        }
        proof {
            assert(blocks0.subrange(0, blocks0.len() as int) =~= blocks0);
        }
        self.blocks = Vec::new();
        self.base_block_index = 0;
        self.shift_animation = None;
    }

    /// Returns every block to flexible sizing.
    pub fn unfreeze_remaining_blocks(&mut self)
        requires
            old(self).wf(),
        ensures
            final(self).wf(),
            final(self).blocks@.len() == old(self).blocks@.len(),
            forall|i: int| 0 <= i < final(self).blocks@.len() ==> {
                &&& (#[trigger] final(self).blocks@[i]).index == old(self).blocks@[i].index
                &&& final(self).blocks@[i].rows == old(self).blocks@[i].rows
                &&& !final(self).blocks@[i].is_removing
                &&& !final(self).blocks@[i].frozen
            },
            final(self).base_block_index == old(self).base_block_index,
            final(self).shift_animation == old(self).shift_animation,
            final(self).cached_string_count == old(self).cached_string_count,
            final(self).indicator_block_index == old(self).indicator_block_index,
            final(self).indicator_progress == old(self).indicator_progress,
    {
        let mut src: Vec<BlockView> = Vec::new();
        std::mem::swap(&mut src, &mut self.blocks);
        let ghost orig = src@;
        let n = src.len();
        let mut i: usize = 0;
        while i < n
            invariant
                n == orig.len(),
                i <= n,
                src@ == orig.subrange(i as int, n as int),
                self.blocks@.len() == i,
                orig == old(self).blocks@,
                self.base_block_index == old(self).base_block_index,
                self.cached_string_count == old(self).cached_string_count,
                self.indicator_block_index == old(self).indicator_block_index,
                self.indicator_progress == old(self).indicator_progress,
                self.shift_animation == old(self).shift_animation,
                forall|q: int| 0 <= q < i ==> {
                    &&& (#[trigger] self.blocks@[q]).index == orig[q].index
                    &&& self.blocks@[q].rows == orig[q].rows
                    &&& !self.blocks@[q].is_removing
                    &&& !self.blocks@[q].frozen
                },
            decreases n - i,
        {
            let b = src.remove(0);
            assert(b == orig[i as int]);
            let BlockView { index, rows, .. } = b;
            self.blocks.push(BlockView { index, rows, is_removing: false, frozen: false });
            proof {
                assert(src@ =~= orig.subrange(i + 1, n as int));
            }
            i = i + 1;
        }
    }

    /// Begins the collapse of the first block, after which the window will
    /// start at `target`. Does nothing, and says so, when a collapse is
    /// already running or the first block is missing.
    pub fn start_shift_animation(&mut self, target: u64) -> (started: bool)
        requires
            old(self).wf(),
            old(self).base_block_index < target <= BASE_LIMIT,
        ensures
            final(self).wf(),
            final(self).base_block_index == old(self).base_block_index,
            final(self).cached_string_count == old(self).cached_string_count,
            final(self).indicator_block_index == old(self).indicator_block_index,
            final(self).indicator_progress == old(self).indicator_progress,
            final(self).blocks@.len() == old(self).blocks@.len(),
            forall|i: int| 0 <= i < final(self).blocks@.len() ==> (#[trigger] final(self).blocks@[i]).index == old(self).blocks@[i].index
                && final(self).blocks@[i].rows == old(self).blocks@[i].rows,
            started ==> final(self).shift_animation == Some(ShiftAnimation {
                target_base_index: target,
                removing_index: old(self).base_block_index,
                elapsed: 0,
            }),
            !started ==> final(self).shift_animation == old(self).shift_animation,
            !started ==> final(self).blocks == old(self).blocks,
            started ==> forall|i: int| 0 <= i < final(self).blocks@.len() ==> (#[trigger] final(self).blocks@[i]).frozen,
            started == (old(self).shift_animation is None && exists|i: int| 0 <= i < old(self).blocks@.len()
                && (#[trigger] old(self).blocks@[i]).index == old(self).base_block_index && !old(self).blocks@[i].is_removing),
            started ==> forall|i: int| 0 <= i < final(self).blocks@.len() ==> (#[trigger] final(self).blocks@[i]).is_removing
                == (old(self).blocks@[i].is_removing || old(self).blocks@[i].index == old(self).base_block_index),
    {
        if self.shift_animation.is_some() {
            return false;
        }
        let removing = self.base_block_index;
        let mut found: bool = false;
        let mut k: usize = 0;
        while k < self.blocks.len()
            invariant
                k <= self.blocks@.len(),
                self.blocks@ == old(self).blocks@,
                self.base_block_index == old(self).base_block_index,
                self.shift_animation is None,
                removing == self.base_block_index,
                found == exists|i: int| 0 <= i < k && (#[trigger] self.blocks@[i]).index == removing && !self.blocks@[i].is_removing,
            decreases self.blocks.len() - k,
        {
            if self.blocks[k].index == removing && !self.blocks[k].is_removing {
                found = true;
            }
            proof {
                if exists|i: int| 0 <= i < k + 1 && (#[trigger] self.blocks@[i]).index == removing && !self.blocks@[i].is_removing {
                    let i = choose|i: int| 0 <= i < k + 1 && (#[trigger] self.blocks@[i]).index == removing && !self.blocks@[i].is_removing;
                    if i < k {
                        assert(found);
                    }
                }
            }
            k = k + 1;
        }
        if !found {
            return false;
        }
        let mut src: Vec<BlockView> = Vec::new();
        std::mem::swap(&mut src, &mut self.blocks);
        let ghost orig = src@;
        let n = src.len();
        let mut i: usize = 0;
        while i < n
            invariant
                n == orig.len(),
                i <= n,
                src@ == orig.subrange(i as int, n as int),
                self.blocks@.len() == i,
                orig == old(self).blocks@,
                self.base_block_index == old(self).base_block_index,
                self.cached_string_count == old(self).cached_string_count,
                self.indicator_block_index == old(self).indicator_block_index,
                self.indicator_progress == old(self).indicator_progress,
                self.shift_animation is None,
                removing == old(self).base_block_index,
                forall|q: int| 0 <= q < i ==> {
                    &&& (#[trigger] self.blocks@[q]).index == orig[q].index
                    &&& self.blocks@[q].rows == orig[q].rows
                    &&& self.blocks@[q].frozen
                    &&& self.blocks@[q].is_removing == (orig[q].is_removing || orig[q].index == removing)
                },
            decreases n - i,
        {
            let b = src.remove(0);
            assert(b == orig[i as int]);
            let BlockView { index, rows, is_removing, .. } = b;
            let removing_now = is_removing || index == removing;
            self.blocks.push(BlockView { index, rows, is_removing: removing_now, frozen: true });
            proof {
                assert(src@ =~= orig.subrange(i + 1, n as int));
            }
            i = i + 1;
        }
        self.shift_animation = Some(ShiftAnimation { target_base_index: target, removing_index: removing, elapsed: 0 });
        true
    }

    /// Advances a running collapse by `delta` microseconds; when it
    /// completes, the collapsing block is destroyed and the window moves
    /// to the animation's target.
    pub fn progress_shift_animation(&mut self, delta: u64, instrs: &mut Vec<Instruction>)
        requires
            old(self).wf(),
            delta <= TIME_LIMIT,
        ensures
            final(self).wf(),
            final(self).base_block_index >= old(self).base_block_index,
            final(self).cached_string_count == old(self).cached_string_count,
            final(self).indicator_block_index == old(self).indicator_block_index,
            final(self).indicator_progress == old(self).indicator_progress,
            old(self).shift_animation is None ==> final(self).base_block_index == old(self).base_block_index
                && final(self).blocks@ == old(self).blocks@ && final(instrs)@ == old(instrs)@,
            forall|i: int| 0 <= i < final(instrs)@.len() ==> i < old(instrs)@.len() ==> final(instrs)@[i] == old(instrs)@[i],
            final(instrs)@.len() >= old(instrs)@.len(),
            final(instrs)@.len() <= old(instrs)@.len() + 1,
            final(self).shift_animation is Some ==> final(self).blocks@.len() > 0,
            final(self).shift_animation is None && old(self).shift_animation is Some ==> forall|i: int| 0 <= i < final(self).blocks@.len() ==> !(#[trigger] final(self).blocks@[i]).is_removing,
            final(self).shift_animation is Some ==> final(self).blocks == old(self).blocks && final(self).base_block_index == old(self).base_block_index,
            final(self).shift_animation is Some ==> final(instrs)@ == old(instrs)@,
            forall|x: u64| destroys_block(final(instrs)@.subrange(old(instrs)@.len() as int, final(instrs)@.len() as int), x)
                ==> gone_index(*old(self), delta) == Some(x),
            match gone_index(*old(self), delta) {
                Some(x) => !has_block(final(self).blocks@, x),
                None => true,
            },
            match old(self).shift_animation {
                Some(a) => (a.elapsed + delta < BLOCK_SHIFT_DURATION && has_block(old(self).blocks@, a.removing_index)) ==> final(self).shift_animation == Some(ShiftAnimation {
                    target_base_index: a.target_base_index,
                    removing_index: a.removing_index,
                    elapsed: (a.elapsed + delta) as u64,
                }),
                None => final(self).shift_animation is None,
            },
            match old(self).shift_animation {
                Some(a) => (a.elapsed + delta >= BLOCK_SHIFT_DURATION && has_block(old(self).blocks@, a.removing_index)) ==> {
                    &&& final(self).shift_animation is None
                    &&& final(self).base_block_index == a.target_base_index
                    &&& final(instrs)@.len() == old(instrs)@.len() + 1
                    &&& final(instrs)@[old(instrs)@.len() as int] == (Instruction::DestroyBlock { index: a.removing_index })
                },
                None => true,
            },
            forall|i: int| old(instrs)@.len() <= i < final(instrs)@.len() ==> (#[trigger] final(instrs)@[i]) is DestroyBlock,
            final(instrs)@.len() - old(instrs)@.len() + final(self).blocks@.len() == old(self).blocks@.len(),
            forall|i: int| old(instrs)@.len() <= i < final(instrs)@.len() ==> exists|j: int| 0 <= j < old(self).blocks@.len()
                && (#[trigger] final(instrs)@[i]) == (Instruction::DestroyBlock { index: old(self).blocks@[j].index }),
            kept_or_destroyed(old(self).blocks@, final(self).blocks@, final(instrs)@.subrange(old(instrs)@.len() as int, final(instrs)@.len() as int)),
            match old(self).shift_animation {
                Some(a) => !has_block(old(self).blocks@, a.removing_index) ==> {
                    &&& final(self).shift_animation is None
                    &&& final(self).base_block_index == a.target_base_index
                    &&& final(instrs)@ == old(instrs)@
                    &&& final(self).blocks@.len() == old(self).blocks@.len()
                    &&& forall|i: int| 0 <= i < final(self).blocks@.len() ==> {
                        &&& (#[trigger] final(self).blocks@[i]).index == old(self).blocks@[i].index
                        &&& final(self).blocks@[i].rows == old(self).blocks@[i].rows
                        &&& !final(self).blocks@[i].frozen
                        &&& !final(self).blocks@[i].is_removing
                    }
                },
                None => true,
            },
            match old(self).shift_animation {
                Some(a) => (a.elapsed + delta >= BLOCK_SHIFT_DURATION && has_block(old(self).blocks@, a.removing_index)) ==> {
                    &&& !has_block(final(self).blocks@, a.removing_index)
                    &&& forall|i: int| 0 <= i < final(self).blocks@.len() ==> !(#[trigger] final(self).blocks@[i]).frozen
                        && !final(self).blocks@[i].is_removing
                },
                None => true,
            },
            forall|i: int| 0 <= i < final(self).blocks@.len() ==> carried_from(old(self).blocks@, #[trigger] final(self).blocks@[i]),
    {
        let anim = match &self.shift_animation {
            Some(a) => ShiftAnimation { target_base_index: a.target_base_index, removing_index: a.removing_index, elapsed: a.elapsed },
            None => {
                assert forall|i: int| 0 <= i < self.blocks@.len() implies carried_from(old(self).blocks@, #[trigger] self.blocks@[i]) by {
                    assert(old(self).blocks@[i] == self.blocks@[i]);
                    assert(old(self).blocks@[i].index == self.blocks@[i].index && old(self).blocks@[i].rows == self.blocks@[i].rows);
                }
                assert forall|j: int| 0 <= j < old(self).blocks@.len() implies has_block(self.blocks@, (#[trigger] old(self).blocks@[j]).index) by {
                    assert(self.blocks@[j].index == old(self).blocks@[j].index);
                }
                return;
            },
        };
        let elapsed = anim.elapsed + delta;
        let mut pos: usize = 0;
        let mut found: bool = false;
        while !found && pos < self.blocks.len()
            invariant
                pos <= self.blocks@.len(),
                self.blocks@ == old(self).blocks@,
                found ==> pos < self.blocks@.len() && self.blocks@[pos as int].index == anim.removing_index,
                !found ==> forall|q: int| 0 <= q < pos ==> (#[trigger] self.blocks@[q]).index != anim.removing_index,
            decreases self.blocks.len() - pos + (if found { 0int } else { 1int }),
        {
            if self.blocks[pos].index == anim.removing_index {
                found = true;
            } else {
                pos = pos + 1;
            }
        }
        if !found {
            assert(!has_block(old(self).blocks@, anim.removing_index));
            self.base_block_index = anim.target_base_index;
            self.shift_animation = None;
            self.unfreeze_remaining_blocks();
            assert forall|i: int| 0 <= i < self.blocks@.len() implies carried_from(old(self).blocks@, #[trigger] self.blocks@[i]) by {
                assert(old(self).blocks@[i].index == self.blocks@[i].index && old(self).blocks@[i].rows == self.blocks@[i].rows);
            }
            assert forall|j: int| 0 <= j < old(self).blocks@.len() implies has_block(self.blocks@, (#[trigger] old(self).blocks@[j]).index) by {
                assert(self.blocks@[j].index == old(self).blocks@[j].index);
            }
            assert(instrs@.subrange(old(instrs)@.len() as int, instrs@.len() as int) =~= Seq::<Instruction>::empty());
            return;
        }
        if elapsed >= BLOCK_SHIFT_DURATION {
            let ghost before = self.blocks@;
            let removed = self.blocks.remove(pos);
            instrs.push(Instruction::DestroyBlock { index: removed.index });
            self.base_block_index = anim.target_base_index;
            self.shift_animation = None;
            proof {
                assert forall|a: int, b: int| 0 <= a < b < self.blocks@.len() implies (#[trigger] self.blocks@[a]).index < (#[trigger] self.blocks@[b]).index by {
                    if a < pos {
                        if b < pos {
                        } else {
                            assert(self.blocks@[b] == before[b + 1]);
                        }
                    } else {
                        assert(self.blocks@[a] == before[a + 1]);
                        assert(self.blocks@[b] == before[b + 1]);
                    }
                }
                assert forall|a: int| 0 <= a < self.blocks@.len() implies rows_distinct((#[trigger] self.blocks@[a]).rows@)
                    && self.blocks@[a].index <= BASE_LIMIT + VISIBLE_BLOCKS
                    && self.blocks@[a].rows@.len() == self.cached_string_count by {
                    if a >= pos {
                        assert(self.blocks@[a] == before[a + 1]);
                    }
                }
            }
            let ghost mid = self.blocks@;
            self.unfreeze_remaining_blocks();
            proof {
                assert forall|i: int| 0 <= i < self.blocks@.len() implies carried_from(old(self).blocks@, #[trigger] self.blocks@[i]) by {
                    if i < pos {
                        assert(mid[i] == before[i]);
                        assert(old(self).blocks@[i].index == self.blocks@[i].index && old(self).blocks@[i].rows == self.blocks@[i].rows);
                    } else {
                        assert(mid[i] == before[i + 1]);
                        assert(old(self).blocks@[i + 1].index == self.blocks@[i].index && old(self).blocks@[i + 1].rows == self.blocks@[i].rows);
                    }
                }
                assert(!has_block(self.blocks@, anim.removing_index)) by {
                    if has_block(self.blocks@, anim.removing_index) {
                        let i = choose|i: int| 0 <= i < self.blocks@.len() && (#[trigger] self.blocks@[i]).index == anim.removing_index;
                        if i < pos {
                            assert(mid[i] == before[i]);
                            assert(before[i].index < before[pos as int].index);
                        } else {
                            assert(mid[i] == before[i + 1]);
                            assert(before[pos as int].index < before[i + 1].index);
                        }
                    }
                }
                let suffix = instrs@.subrange(old(instrs)@.len() as int, instrs@.len() as int);
                assert(suffix[0] == (Instruction::DestroyBlock { index: old(self).blocks@[pos as int].index }));
                assert forall|j: int| 0 <= j < old(self).blocks@.len() implies has_block(self.blocks@, (#[trigger] old(self).blocks@[j]).index)
                    || destroys_block(suffix, old(self).blocks@[j].index) by {
                    if j < pos {
                        assert(self.blocks@[j].index == mid[j].index);
                    } else if j > pos {
                        assert(mid[j - 1] == before[j]);
                        assert(self.blocks@[j - 1].index == mid[j - 1].index);
                    } else {
                        assert(suffix[0] == (Instruction::DestroyBlock { index: old(self).blocks@[j].index }));
                    }
                }
                assert(instrs@[old(instrs)@.len() as int] == (Instruction::DestroyBlock { index: old(self).blocks@[pos as int].index }));
            }
        } else {
            self.shift_animation = Some(ShiftAnimation {
                target_base_index: anim.target_base_index,
                removing_index: anim.removing_index,
                elapsed,
            });
            assert(old(self).shift_animation == Some(anim));
            assert forall|i: int| 0 <= i < self.blocks@.len() implies carried_from(old(self).blocks@, #[trigger] self.blocks@[i]) by {
                assert(old(self).blocks@[i] == self.blocks@[i]);
            }
            assert forall|j: int| 0 <= j < old(self).blocks@.len() implies has_block(self.blocks@, (#[trigger] old(self).blocks@[j]).index) by {
                assert(self.blocks@[j].index == old(self).blocks@[j].index);
            }
            assert(instrs@.subrange(old(instrs)@.len() as int, instrs@.len() as int) =~= Seq::<Instruction>::empty());
        }
    }

    /// The state between frames: well formed, with either no blocks or a
    /// full window.
    pub open spec fn settled(&self) -> bool {
        &&& self.wf()
        &&& (self.blocks@.len() == 0 || window_exact(self.blocks@, self.base_block_index, self.cached_string_count))
        &&& (self.shift_animation is None ==> forall|i: int| 0 <= i < self.blocks@.len() ==> !(#[trigger] self.blocks@[i]).is_removing)
        &&& (self.shift_animation is Some ==> self.blocks@.len() > 0)
    }

    /// Makes the blocks exactly the window `[base, base + VISIBLE_BLOCKS)`:
    /// blocks outside it are destroyed, blocks inside it kept as they are,
    /// missing ones created with `string_count` empty rows, and the blocks
    /// put in index order.
    pub fn ensure_blocks(&mut self, string_count: usize, instrs: &mut Vec<Instruction>)
        requires
            old(self).wf(),
            old(self).cached_string_count == string_count,
        ensures
            final(self).wf(),
            window_exact(final(self).blocks@, final(self).base_block_index, string_count),
            final(self).base_block_index == old(self).base_block_index,
            final(self).shift_animation == old(self).shift_animation,
            final(self).cached_string_count == old(self).cached_string_count,
            final(self).indicator_block_index == old(self).indicator_block_index,
            final(self).indicator_progress == old(self).indicator_progress,
            final(instrs)@.len() >= old(instrs)@.len(),
            final(instrs)@.subrange(0, old(instrs)@.len() as int) == old(instrs)@,
            forall|i: int| old(instrs)@.len() <= i < final(instrs)@.len() ==> (#[trigger] final(instrs)@[i]) is DestroyBlock
                || final(instrs)@[i] is CreateBlock,
            (forall|j: int| 0 <= j < old(self).blocks@.len() ==> !(#[trigger] old(self).blocks@[j]).is_removing)
                ==> forall|i: int| 0 <= i < final(self).blocks@.len() ==> !(#[trigger] final(self).blocks@[i]).is_removing,
            window_rebuilt(old(self).blocks@, final(self).blocks@, old(self).base_block_index, string_count,
                final(instrs)@.subrange(old(instrs)@.len() as int, final(instrs)@.len() as int)),
    {
        let mut src: Vec<BlockView> = Vec::new();
        std::mem::swap(&mut src, &mut self.blocks);
        let ghost orig = src@;
        let ghost start = instrs@;
        let base = self.base_block_index;
        let mut off: u64 = 0;
        while off < VISIBLE_BLOCKS
            invariant
                off <= VISIBLE_BLOCKS,
                base == self.base_block_index,
                base <= BASE_LIMIT,
                self.base_block_index == old(self).base_block_index,
                self.shift_animation == old(self).shift_animation,
                self.cached_string_count == string_count,
                self.cached_string_count == old(self).cached_string_count,
                self.indicator_block_index == old(self).indicator_block_index,
                self.indicator_progress == old(self).indicator_progress,
                orig == old(self).blocks@,
                old(self).wf(),
                self.blocks@.len() == off,
                forall|q: int| 0 <= q < off ==> (#[trigger] self.blocks@[q]).index == base + q
                    && self.blocks@[q].rows@.len() == string_count && rows_distinct(self.blocks@[q].rows@),
                blocks_ordered(src@),
                forall|q: int| 0 <= q < src@.len() ==> orig.contains(#[trigger] src@[q]),
                forall|q: int| 0 <= q < src@.len() ==> !(base <= (#[trigger] src@[q]).index < base + off),
                forall|j: int| 0 <= j < orig.len() && !(base <= (#[trigger] orig[j]).index < base + off) ==> src@.contains(orig[j]),
                forall|j: int| 0 <= j < orig.len() && base <= (#[trigger] orig[j]).index < base + off
                    ==> self.blocks@[orig[j].index - base] == orig[j],
                forall|q: int| 0 <= q < off && !has_block(orig, (base + q) as u64) ==> fresh_block(#[trigger] self.blocks@[q], string_count),
                instrs@.len() >= start.len(),
                instrs@.subrange(0, start.len() as int) == start,
                forall|k: int| start.len() <= k < instrs@.len() ==> match #[trigger] instrs@[k] {
                    Instruction::CreateBlock { index, rows } => base <= index < base + off && !has_block(orig, index) && rows == string_count,
                    _ => false,
                },
                instrs@.subrange(start.len() as int, instrs@.len() as int).no_duplicates(),
                forall|q: int| 0 <= q < off && !#[trigger] has_block(orig, (base + q) as u64) ==> instrs@.subrange(start.len() as int, instrs@.len() as int).contains(
                    Instruction::CreateBlock { index: (base + q) as u64, rows: string_count }),
            decreases VISIBLE_BLOCKS - off,
        {
            let idx = base + off;
            let mut p: usize = 0;
            let mut found: bool = false;
            while !found && p < src.len()
                invariant
                    p <= src@.len(),
                    found ==> p < src@.len() && src@[p as int].index == idx,
                    !found ==> forall|q: int| 0 <= q < p ==> (#[trigger] src@[q]).index != idx,
                decreases src.len() - p + (if found { 0int } else { 1int }),
            {
                if src[p].index == idx {
                    found = true;
                } else {
                    p = p + 1;
                }
            }
            let ghost before = src@;
            let ghost ib = instrs@;
            if found {
                let b = src.remove(p);
                assert(b == before[p as int]);
                assert(orig.contains(b));
                self.blocks.push(b);
                proof {
                    assert forall|q: int| 0 <= q < src@.len() implies src@[q] == before[if q < p { q } else { q + 1 }] by {}
                    assert forall|a: int, c: int| 0 <= a < c < src@.len() implies (#[trigger] src@[a]).index < (#[trigger] src@[c]).index by {
                        assert(src@[a] == before[if a < p { a } else { a + 1 }]);
                        assert(src@[c] == before[if c < p { c } else { c + 1 }]);
                    }
                    assert forall|q: int| 0 <= q < src@.len() implies orig.contains(#[trigger] src@[q]) by {
                        assert(src@[q] == before[if q < p { q } else { q + 1 }]);
                    }
                    assert forall|q: int| 0 <= q < src@.len() implies !(base <= (#[trigger] src@[q]).index < base + off + 1) by {
                        let w = if q < p { q } else { q + 1 };
                        assert(src@[q] == before[w]);
                        if w < p {
                            assert(before[w].index < before[p as int].index);
                        } else {
                            assert(before[p as int].index < before[w].index);
                        }
                    }
                    let jb = choose|jb: int| 0 <= jb < orig.len() && orig[jb] == b;
                    assert forall|j: int| 0 <= j < orig.len() && !(base <= (#[trigger] orig[j]).index < base + off + 1) implies src@.contains(orig[j]) by {
                        assert(before.contains(orig[j]));
                        let w = choose|w: int| 0 <= w < before.len() && before[w] == orig[j];
                        assert(w != p);
                        if w < p {
                            assert(src@[w] == orig[j]);
                        } else {
                            assert(src@[w - 1] == orig[j]);
                        }
                    }
                    assert forall|j: int| 0 <= j < orig.len() && base <= (#[trigger] orig[j]).index < base + off + 1
                        implies self.blocks@[orig[j].index - base] == orig[j] by {
                        if orig[j].index == idx {
                            if j < jb {
                                assert(orig[j].index < orig[jb].index);
                            } else if j > jb {
                                assert(orig[jb].index < orig[j].index);
                            }
                        }
                    }
                    assert forall|q: int| 0 <= q < off + 1 && !has_block(orig, (base + q) as u64) implies fresh_block(#[trigger] self.blocks@[q], string_count) by {
                        if q == off {
                            assert(orig[jb].index == idx);
                        }
                    }
                }
            } else {
                proof {
                    assert(!has_block(orig, idx)) by {
                        if has_block(orig, idx) {
                            let j = choose|j: int| 0 <= j < orig.len() && (#[trigger] orig[j]).index == idx;
                            assert(src@.contains(orig[j]));
                            let w = choose|w: int| 0 <= w < src@.len() && src@[w] == orig[j];
                        }
                    }
                }
                let mut rows: Vec<Vec<PrimitiveKey>> = Vec::new();
                let mut k: usize = 0;
                while k < string_count
                    invariant
                        k <= string_count,
                        rows@.len() == k,
                        rows_distinct(rows@),
                        forall|r: int| 0 <= r < k ==> (#[trigger] rows@[r])@.len() == 0,
                    decreases string_count - k,
                {
                    let empty: Vec<PrimitiveKey> = Vec::new();
                    proof {
                        assert(empty@.no_duplicates());
                    }
                    rows.push(empty);
                    k = k + 1;
                }
                self.blocks.push(BlockView { index: idx, rows, is_removing: false, frozen: false });
                instrs.push(Instruction::CreateBlock { index: idx, rows: string_count });
                proof {
                    assert(instrs@.subrange(0, start.len() as int) =~= ib.subrange(0, start.len() as int));
                    let nw = instrs@.subrange(start.len() as int, instrs@.len() as int);
                    let od = ib.subrange(start.len() as int, ib.len() as int);
                    assert(nw =~= od.push(Instruction::CreateBlock { index: idx, rows: string_count }));
                    assert forall|a: int, c: int| 0 <= a < c < nw.len() implies nw[a] != nw[c] by {
                        if c == nw.len() - 1 {
                            assert(instrs@[start.len() + a] == nw[a]);
                        }
                    }
                    assert forall|q: int| 0 <= q < off + 1 && !#[trigger] has_block(orig, (base + q) as u64) implies nw.contains(
                        Instruction::CreateBlock { index: (base + q) as u64, rows: string_count }) by {
                        if q < off {
                            crate::reconcile::lemma_push_contains(od, Instruction::CreateBlock { index: idx, rows: string_count },
                                Instruction::CreateBlock { index: (base + q) as u64, rows: string_count });
                        } else {
                            assert(nw[nw.len() - 1] == Instruction::CreateBlock { index: idx, rows: string_count });
                        }
                    }
                    assert forall|k: int| start.len() <= k < instrs@.len() implies match #[trigger] instrs@[k] {
                        Instruction::CreateBlock { index, rows } => base <= index < base + off + 1 && !has_block(orig, index) && rows == string_count,
                        _ => false,
                    } by {
                        if k < ib.len() {
                            assert(instrs@[k] == ib[k]);
                        }
                    }
                }
            }
            off = off + 1;
        }
        let ghost mid = instrs@;
        let n = src.len();
        let mut q: usize = 0;
        while q < n
            invariant
                n == src@.len(),
                q <= n,
                mid.len() >= start.len(),
                instrs@ == mid + src@.subrange(0, q as int).map_values(|b: BlockView| Instruction::DestroyBlock { index: b.index }),
            decreases n - q,
        {
            let index = src[q].index;
            instrs.push(Instruction::DestroyBlock { index });
            proof {
                assert(src@.subrange(0, q + 1).map_values(|b: BlockView| Instruction::DestroyBlock { index: b.index })
                    =~= src@.subrange(0, q as int).map_values(|b: BlockView| Instruction::DestroyBlock { index: b.index }).push(Instruction::DestroyBlock { index }));
            }
            q = q + 1;
        }
        proof {
            let tail = src@.map_values(|b: BlockView| Instruction::DestroyBlock { index: b.index });
            assert(src@.subrange(0, n as int) =~= src@);
            let nw = instrs@.subrange(start.len() as int, instrs@.len() as int);
            let nm = mid.subrange(start.len() as int, mid.len() as int);
            assert(nw =~= nm + tail);
            assert(instrs@.subrange(0, start.len() as int) =~= mid.subrange(0, start.len() as int));
            assert forall|k: int| start.len() <= k < instrs@.len() implies (#[trigger] instrs@[k]) is DestroyBlock
                || instrs@[k] is CreateBlock by {
                if k < mid.len() {
                    assert(instrs@[k] == mid[k]);
                } else {
                    assert(instrs@[k] == tail[k - mid.len()]);
                }
            }
            assert forall|k: int| 0 <= k < nw.len() implies match #[trigger] nw[k] {
                Instruction::DestroyBlock { index } => has_block(orig, index) && !(base <= index < base + VISIBLE_BLOCKS),
                Instruction::CreateBlock { index, rows } => base <= index < base + VISIBLE_BLOCKS && !has_block(orig, index) && rows == string_count,
                _ => false,
            } by {
                if k < nm.len() {
                    assert(nw[k] == mid[start.len() + k]);
                } else {
                    let w = k - nm.len();
                    assert(nw[k] == tail[w]);
                    assert(orig.contains(src@[w]));
                    let j = choose|j: int| 0 <= j < orig.len() && orig[j] == src@[w];
                    assert(has_block(orig, orig[j].index));
                }
            }
            assert(blocks_ordered(src@));
            assert forall|a: int, c: int| 0 <= a < c < nw.len() implies nw[a] != nw[c] by {
                if c < nm.len() {
                    assert(nw[a] == nm[a] && nw[c] == nm[c]);
                } else if a < nm.len() {
                    assert(nw[a] == mid[start.len() + a]);
                    assert(nw[c] == tail[c - nm.len()]);
                } else {
                    assert(nw[a] == tail[a - nm.len()]);
                    assert(nw[c] == tail[c - nm.len()]);
                    assert(src@[a - nm.len()].index < src@[c - nm.len()].index);
                }
            }
            assert forall|j: int| 0 <= j < orig.len() && !(base <= (#[trigger] orig[j]).index < base + VISIBLE_BLOCKS)
                implies destroys_block(nw, orig[j].index) by {
                assert(src@.contains(orig[j]));
                let w = choose|w: int| 0 <= w < src@.len() && src@[w] == orig[j];
                assert(nw[nm.len() + w] == tail[w]);
            }
            assert forall|i: int| 0 <= i < VISIBLE_BLOCKS && !#[trigger] has_block(orig, (base + i) as u64)
                implies nw.contains(Instruction::CreateBlock { index: (base + i) as u64, rows: string_count }) by {
                assert(nm.contains(Instruction::CreateBlock { index: (base + i) as u64, rows: string_count }));
                let w = choose|w: int| 0 <= w < nm.len() && nm[w] == Instruction::CreateBlock { index: (base + i) as u64, rows: string_count };
                assert(nw[w] == nm[w]);
            }
        }
    }

    /// Collapse progress of the running shift animation, in parts per million.
    pub open spec fn spec_collapse_progress(&self) -> u64 {
        match self.shift_animation {
            Some(a) => (a.elapsed * FULL / (BLOCK_SHIFT_DURATION as int)) as u64,
            None => 0,
        }
    }

    /// Layout hints for every block.
    pub fn block_layouts(&self, current: u64, progress: u64) -> (r: Vec<BlockLayout>)
        requires
            self.wf(),
            progress <= FULL,
        ensures
            r@.len() == self.blocks@.len(),
            forall|i: int| 0 <= i < r@.len() ==> #[trigger] r@[i] == (BlockLayout {
                index: self.blocks@[i].index,
                coverage: spec_coverage(self.blocks@[i].index, current, progress),
                collapse: if self.blocks@[i].is_removing && self.shift_animation is Some {
                    Some(self.spec_collapse_progress())
                } else {
                    None
                },
                frozen: self.blocks@[i].frozen,
            }),
    {
        let collapse_progress: u64 = match &self.shift_animation {
            Some(a) => a.elapsed * FULL / BLOCK_SHIFT_DURATION,
            None => 0,
        };
        let mut out: Vec<BlockLayout> = Vec::new();
        let mut i: usize = 0;
        while i < self.blocks.len()
            invariant
                i <= self.blocks@.len(),
                collapse_progress == self.spec_collapse_progress(),
                out@.len() == i,
                forall|q: int| 0 <= q < i ==> #[trigger] out@[q] == (BlockLayout {
                    index: self.blocks@[q].index,
                    coverage: spec_coverage(self.blocks@[q].index, current, progress),
                    collapse: if self.blocks@[q].is_removing && self.shift_animation is Some {
                        Some(self.spec_collapse_progress())
                    } else {
                        None
                    },
                    frozen: self.blocks@[q].frozen,
                }),
            decreases self.blocks.len() - i,
        {
            let b = &self.blocks[i];
            let collapse = if b.is_removing && self.shift_animation.is_some() {
                Some(collapse_progress)
            } else {
                None
            };
            out.push(BlockLayout {
                index: b.index,
                coverage: overlay_coverage(b.index, current, progress),
                collapse,
                frozen: b.frozen,
            });
            i = i + 1;
        }
        out
    }

    /// Places the time marker: blended toward `progress` while playback
    /// stays in the same block, snapped to it in a new block.
    pub fn update_indicator(&mut self, current: u64, progress: u64) -> (r: u64)
        requires
            old(self).wf(),
            progress <= FULL,
        ensures
            final(self).wf(),
            r == (if old(self).indicator_block_index == Some(current) {
                spec_blend(old(self).indicator_progress, progress)
            } else {
                progress
            }),
            final(self).indicator_block_index == Some(current),
            final(self).indicator_progress == r,
            final(self).blocks == old(self).blocks,
            final(self).base_block_index == old(self).base_block_index,
            final(self).shift_animation == old(self).shift_animation,
            final(self).cached_string_count == old(self).cached_string_count,
    {
        let r = match self.indicator_block_index {
            Some(previous) => if previous == current {
                blend(self.indicator_progress, progress)
            } else {
                progress
            },
            None => progress,
        };
        self.indicator_block_index = Some(current);
        self.indicator_progress = r;
        r
    }

    /// One frame: advances the collapse by `delta` microseconds, moves the
    /// window for playback at `current_time`, makes the window's blocks
    /// exist, and reconciles their primitives against `notes`.
    #[verifier::spinoff_prover]
    #[verifier::rlimit(100)]
    pub fn update(
        &mut self,
        string_count: usize,
        notes: &Vec<TimelineNote>,
        current_time: u64,
        block_duration: u64,
        delta: u64,
    ) -> (frame: Frame)
        requires
            old(self).settled(),
            current_time <= TIME_LIMIT,
            block_duration <= MAX_BLOCK_DURATION,
            delta <= TIME_LIMIT,
            notes_fit(notes@),
        ensures
            final(self).settled(),
            string_count == 0 ==> {
                &&& final(self).blocks@.len() == 0
                &&& final(self).base_block_index == 0
                &&& final(self).shift_animation is None
                &&& frame.instructions@.len() == old(self).blocks@.len()
                &&& forall|i: int| 0 <= i < frame.instructions@.len() ==> (#[trigger] frame.instructions@[i]) is DestroyBlock
                &&& forall|j: int| 0 <= j < old(self).blocks@.len() ==> destroys_block(frame.instructions@, (#[trigger] old(self).blocks@[j]).index)
            },
            string_count > 0 ==> window_exact(final(self).blocks@, final(self).base_block_index, string_count),
            ({
                let d = frame_duration(block_duration);
                let current = current_time / d;
                let progress = frame_progress(current_time, d);
                &&& (string_count > 0 && (old(self).blocks@.len() == 0 || string_count != old(self).cached_string_count)) ==> {
                    final(self).base_block_index == current && final(self).shift_animation is None
                }
                &&& (string_count > 0 && string_count == old(self).cached_string_count && old(self).blocks@.len() > 0
                    && old(self).shift_animation is None) ==> settled_step(*final(self), old(self).base_block_index, current, progress)
                &&& match old(self).shift_animation {
                    Some(a) => (string_count > 0 && string_count == old(self).cached_string_count
                        && a.elapsed + delta < BLOCK_SHIFT_DURATION) ==> {
                        &&& final(self).base_block_index == old(self).base_block_index
                        &&& final(self).shift_animation == Some(ShiftAnimation {
                            target_base_index: if current > old(self).base_block_index + VISIBLE_BLOCKS - 1
                                && current - (VISIBLE_BLOCKS - 1) > a.target_base_index {
                                (current - (VISIBLE_BLOCKS - 1)) as u64
                            } else {
                                a.target_base_index
                            },
                            removing_index: a.removing_index,
                            elapsed: (a.elapsed + delta) as u64,
                        })
                    },
                    None => true,
                }
            }),
            string_count > 0 ==> ({
                let d = frame_duration(block_duration);
                let current = current_time / d;
                let progress = frame_progress(current_time, d);
                &&& exists|mid: Seq<BlockView>, k: int| {
                    &&& 0 <= k <= frame.instructions@.len()
                    &&& forall|j: int| 0 <= j < k ==> (#[trigger] frame.instructions@[j]) is CreateBlock
                        || frame.instructions@[j] is DestroyBlock
                    &&& blocks_reconciled(mid, final(self).blocks@, frame.instructions@.subrange(k, frame.instructions@.len() as int), notes@, d, current)
                    &&& forall|i: int| 0 <= i < mid.len() ==> prior_block(
                        if string_count == old(self).cached_string_count { old(self).blocks@ } else { Seq::<BlockView>::empty() },
                        gone_index(*old(self), delta), string_count, #[trigger] mid[i])
                }
                &&& frame.layouts@.len() == final(self).blocks@.len()
                &&& forall|i: int| 0 <= i < frame.layouts@.len() ==> (#[trigger] frame.layouts@[i]).index == final(self).blocks@[i].index
                    && frame.layouts@[i].coverage == spec_coverage(final(self).blocks@[i].index, current, progress)
                &&& frame.indicator == (if old(self).indicator_block_index == Some(current) {
                    spec_blend(old(self).indicator_progress, progress)
                } else {
                    progress
                })
            }),
            match old(self).shift_animation {
                Some(a) => a.elapsed + delta >= BLOCK_SHIFT_DURATION ==> destroys_block(frame.instructions@, a.removing_index),
                None => true,
            },
            (string_count > 0 && string_count == old(self).cached_string_count) ==> {
                &&& forall|j: int| 0 <= j < old(self).blocks@.len()
                    && !(final(self).base_block_index <= (#[trigger] old(self).blocks@[j]).index < final(self).base_block_index + VISIBLE_BLOCKS)
                    ==> destroys_block(frame.instructions@, old(self).blocks@[j].index)
                &&& forall|i: int| 0 <= i < VISIBLE_BLOCKS && !(#[trigger] has_block(old(self).blocks@, (final(self).base_block_index + i) as u64)
                    && gone_index(*old(self), delta) != Some((final(self).base_block_index + i) as u64))
                    ==> frame.instructions@.contains(Instruction::CreateBlock { index: (final(self).base_block_index + i) as u64, rows: string_count })
                &&& forall|k1: int, k2: int| 0 <= k1 < k2 < frame.instructions@.len() && (#[trigger] frame.instructions@[k1]) is CreateBlock
                    ==> frame.instructions@[k1] != #[trigger] frame.instructions@[k2]
            },
            (string_count > 0 && string_count != old(self).cached_string_count) ==> forall|j: int| 0 <= j < old(self).blocks@.len()
                ==> destroys_block(frame.instructions@, (#[trigger] old(self).blocks@[j]).index),
            (string_count > 0 && string_count == old(self).cached_string_count && old(self).blocks@.len() > 0
                && old(self).shift_animation is None && final(self).shift_animation is Some) ==> final(self).blocks@[0].is_removing,
            string_count > 0 ==> forall|i: int| 0 <= i < frame.layouts@.len() ==> {
                &&& (#[trigger] frame.layouts@[i]).frozen == final(self).blocks@[i].frozen
                &&& frame.layouts@[i].collapse == if final(self).blocks@[i].is_removing && final(self).shift_animation is Some {
                    Some(final(self).spec_collapse_progress())
                } else {
                    None
                }
            },
            final(self).base_block_index < old(self).base_block_index ==> {
                ||| string_count == 0
                ||| string_count != old(self).cached_string_count
                ||| old(self).blocks@.len() == 0
                ||| current_time / frame_duration(block_duration) < old(self).base_block_index
            },
    {
        let mut instrs: Vec<Instruction> = Vec::new();
        proof {
            if old(self).shift_animation is Some {
                assert(old(self).blocks@[0].index == old(self).base_block_index);
                assert(has_block(old(self).blocks@, old(self).base_block_index));
            }
            if old(self).blocks@.len() > 0 {
                assert(old(self).blocks@[0].index == old(self).base_block_index);
            }
        }
        self.progress_shift_animation(delta, &mut instrs);
        let ghost after_progress = self.blocks@;
        let ghost progress_instrs = instrs@;
        assert(old(self).blocks@.len() == VISIBLE_BLOCKS ==> self.blocks@.len() > 0);
        if string_count == 0 {
            let ghost first = instrs@;
            self.clear_all_blocks(&mut instrs);
            proof {
                let tail = after_progress.map_values(|b: BlockView| Instruction::DestroyBlock { index: b.index });
                assert(instrs@ == first + tail);
                assert forall|i: int| 0 <= i < instrs@.len() implies (#[trigger] instrs@[i]) is DestroyBlock by {
                    if i >= first.len() {
                        assert(instrs@[i] == tail[i - first.len()]);
                    }
                }
                assert forall|j: int| 0 <= j < old(self).blocks@.len() implies destroys_block(instrs@, (#[trigger] old(self).blocks@[j]).index) by {
                    assert(first.subrange(0, first.len() as int) =~= first);
                    if has_block(after_progress, old(self).blocks@[j].index) {
                        let q = choose|q: int| 0 <= q < after_progress.len() && (#[trigger] after_progress[q]).index == old(self).blocks@[j].index;
                        assert(instrs@[first.len() + q] == tail[q]);
                    } else {
                        let suffix = first.subrange(0, first.len() as int);
                        let q = choose|q: int| 0 <= q < suffix.len() && #[trigger] suffix[q] == (Instruction::DestroyBlock { index: old(self).blocks@[j].index });
                        assert(instrs@[q] == first[q]);
                    }
                }
            }
            proof {
                assert forall|j: int| 0 <= j < progress_instrs.len() implies #[trigger] instrs@[j] == progress_instrs[j] by {
                    assert(instrs@[j] == (first + after_progress.map_values(|b: BlockView| Instruction::DestroyBlock { index: b.index }))[j]);
                }
                match old(self).shift_animation {
                    Some(a) => if a.elapsed + delta >= BLOCK_SHIFT_DURATION {
                        assert(instrs@[0] == (Instruction::DestroyBlock { index: a.removing_index }));
                    },
                    None => {},
                }
            }
            return Frame { instructions: instrs, layouts: Vec::new(), indicator: 0 };
        }
        assert(block_level(instrs@));
        assert(has_prefix(instrs@, progress_instrs));
        let ghost progress_suffix = instrs@;
        if string_count != self.cached_string_count {
            let ghost before = instrs@;
            self.clear_all_blocks(&mut instrs);
            proof {
                let tail = after_progress.map_values(|b: BlockView| Instruction::DestroyBlock { index: b.index });
                assert(instrs@ == before + tail);
                assert forall|j: int| 0 <= j < old(self).blocks@.len() implies destroys_block(instrs@, (#[trigger] old(self).blocks@[j]).index) by {
                    if has_block(after_progress, old(self).blocks@[j].index) {
                        let q = choose|q: int| 0 <= q < after_progress.len() && (#[trigger] after_progress[q]).index == old(self).blocks@[j].index;
                        assert(instrs@[before.len() + q] == tail[q]);
                    } else {
                        assert(before.subrange(0, before.len() as int) =~= before);
                        let q = choose|q: int| 0 <= q < before.len() && #[trigger] before[q] == (Instruction::DestroyBlock { index: old(self).blocks@[j].index });
                        assert(instrs@[q] == before[q]);
                    }
                }
            }
            self.cached_string_count = string_count;
            proof {
                let tail = after_progress.map_values(|b: BlockView| Instruction::DestroyBlock { index: b.index });
                assert forall|j: int| 0 <= j < instrs@.len() implies (#[trigger] instrs@[j]) is CreateBlock || instrs@[j] is DestroyBlock by {
                    if j >= before.len() {
                        assert(instrs@[j] == tail[j - before.len()]);
                    } else {
                        assert(instrs@[j] == before[j]);
                    }
                }
                assert forall|j: int| 0 <= j < progress_instrs.len() implies #[trigger] instrs@[j] == progress_instrs[j] by {
                    assert(instrs@[j] == before[j]);
                }
            }
        }
        assert(has_prefix(instrs@, progress_instrs));
        let ghost after_clear = instrs@;
        let (d, current, progress) = frame_position(current_time, block_duration);
        let ghost before_move = self.blocks@;
        self.move_window(current, progress);
        let ghost mw = self.blocks@;
        let ghost before_ensure = instrs@;
        self.ensure_blocks(string_count, &mut instrs);
        proof {
            assert forall|j: int| 0 <= j < instrs@.len() implies (#[trigger] instrs@[j]) is CreateBlock || instrs@[j] is DestroyBlock by {
                if j < before_ensure.len() {
                    assert(instrs@.subrange(0, before_ensure.len() as int)[j] == before_ensure[j]);
                }
            }
            assert forall|j: int| 0 <= j < progress_instrs.len() implies #[trigger] instrs@[j] == progress_instrs[j] by {
                assert(instrs@.subrange(0, before_ensure.len() as int)[j] == before_ensure[j]);
            }
        }
        assert(has_prefix(instrs@, progress_instrs));
        proof {
            assert forall|i: int| 0 <= i < self.blocks@.len() implies ((#[trigger] self.blocks@[i]).index + 1) * d <= BLOCK_SPAN_LIMIT by {
                let x = self.blocks@[i].index;
                assert((x + 1) * d <= BLOCK_SPAN_LIMIT) by (nonlinear_arith)
                    requires
                        x <= BASE_LIMIT + VISIBLE_BLOCKS,
                        d <= MAX_BLOCK_DURATION,
                ;
            }
        }
        let ghost pre = self.blocks@;
        proof {
            lemma_prior_blocks(old(self).blocks@, after_progress, progress_instrs, mw, pre, self.base_block_index, string_count,
                string_count == old(self).cached_string_count, gone_index(*old(self), delta),
                instrs@.subrange(before_ensure.len() as int, instrs@.len() as int));
        }
        let more = reconcile_blocks(&mut self.blocks, notes, d, current);
        proof {
            assert forall|i: int| 0 <= i < self.blocks@.len() implies (#[trigger] self.blocks@[i]).index == self.base_block_index + i
                && self.blocks@[i].rows@.len() == string_count by {
                assert(pre[i] == pre[i]);
                assert(block_rows_reconciled(pre[i].rows@, self.blocks@[i].rows@, more@, notes@, self.blocks@[i].index, d, current));
            }
        }
        let ghost split = instrs@.len();
        let ghost head = instrs@;
        append_instructions(&mut instrs, &more);
        proof {
            if string_count == old(self).cached_string_count {
                let rebuild = head.subrange(before_ensure.len() as int, head.len() as int);
                assert(before_ensure == progress_instrs);
                assert(head =~= progress_instrs + rebuild);
                assert forall|k: int| 0 <= k < (progress_instrs + rebuild).len() implies #[trigger] instrs@[k] == (progress_instrs + rebuild)[k] by {
                    assert(instrs@[k] == head[k]);
                }
                assert forall|k: int| (progress_instrs + rebuild).len() <= k < instrs@.len() implies (#[trigger] instrs@[k]) is Create || instrs@[k] is Destroy by {
                    assert(instrs@[k] == more@[k - split]);
                    assert(blocks_reconciled(pre, self.blocks@, more@, notes@, d, current));
                }
                match old(self).shift_animation {
                    Some(a) => if a.elapsed + delta >= BLOCK_SHIFT_DURATION {
                        assert(has_block(old(self).blocks@, a.removing_index));
                        assert(progress_instrs[0] == (Instruction::DestroyBlock { index: a.removing_index }));
                    },
                    None => {},
                }
                lemma_frame_blocks(old(self).blocks@, gone_index(*old(self), delta), after_progress, progress_instrs, mw, pre,
                    self.base_block_index, string_count, rebuild, instrs@);
            }
        }
        proof {
            assert(instrs@.subrange(split as int, instrs@.len() as int) =~= more@);
            assert forall|j: int| 0 <= j < split implies (#[trigger] instrs@[j]) is CreateBlock || instrs@[j] is DestroyBlock by {
                assert(instrs@[j] == head[j]);
            }
            assert forall|j: int| 0 <= j < progress_instrs.len() implies #[trigger] instrs@[j] == progress_instrs[j] by {
                assert(instrs@[j] == head[j]);
            }
            match old(self).shift_animation {
                Some(a) => if a.elapsed + delta >= BLOCK_SHIFT_DURATION {
                    assert(instrs@[0] == (Instruction::DestroyBlock { index: a.removing_index }));
                },
                None => {},
            }
        }
        proof {
            let suffix = instrs@.subrange(split as int, instrs@.len() as int);
            assert(blocks_reconciled(pre, self.blocks@, suffix, notes@, d, current));
            assert(0 <= split <= instrs@.len());
            assert(exists|mid: Seq<BlockView>, k: int| {
                &&& 0 <= k <= instrs@.len()
                &&& forall|j: int| 0 <= j < k ==> (#[trigger] instrs@[j]) is CreateBlock || instrs@[j] is DestroyBlock
                &&& blocks_reconciled(mid, self.blocks@, instrs@.subrange(k, instrs@.len() as int), notes@, d, current)
                &&& forall|i: int| 0 <= i < mid.len() ==> prior_block(
                    if string_count == old(self).cached_string_count { old(self).blocks@ } else { Seq::<BlockView>::empty() },
                    gone_index(*old(self), delta), string_count, #[trigger] mid[i])
            }) by {
                assert(forall|j: int| 0 <= j < split ==> (#[trigger] instrs@[j]) is CreateBlock || instrs@[j] is DestroyBlock);
            }
        }
        proof {
            assert forall|j: int| 0 <= j < after_clear.len() implies #[trigger] instrs@[j] == after_clear[j] by {
                assert(instrs@[j] == head[j]);
                assert(before_ensure.subrange(0, before_ensure.len() as int) =~= before_ensure);
                assert(head.subrange(0, before_ensure.len() as int)[j] == before_ensure[j]);
            }
            assert(has_prefix(instrs@, after_clear));
            if string_count != old(self).cached_string_count {
                assert forall|j: int| 0 <= j < old(self).blocks@.len() implies destroys_block(instrs@, (#[trigger] old(self).blocks@[j]).index) by {
                    lemma_prefix_destroys(instrs@, after_clear, old(self).blocks@[j].index);
                }
            }
        }
        let ghost final_blocks = self.blocks@;
        let layouts = self.block_layouts(current, progress);
        let indicator = self.update_indicator(current, progress);
        assert(self.blocks@ == final_blocks);
        Frame { instructions: instrs, layouts, indicator }
    }
}

} // verus!
