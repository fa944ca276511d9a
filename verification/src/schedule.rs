//! The block scheduler: how a buffer is cut into sub-blocks, and which events
//! take effect at which boundary.
//!
//! A sub-block never holds more than `MAX_BLOCK_SIZE` samples, and it ends where
//! the next event that has not been handled yet is due. So every event takes
//! effect at a boundary and none in the middle of a sub-block.

use crate::event::{GainCommand, NoteEvent, VoiceTerminated};
use crate::lineage::{
    descends, follows, gone, lemma_descends_follows, lemma_descends_from_itself,
    lemma_descends_further, lemma_handle_all_descends, lemma_mixing_descends,
    lemma_released_are_gone, lemma_stems_further, stems_from,
};
use crate::pool::{
    advanced, handles_distinct, has_headroom, is_held, is_releasing, lemma_select_keeps_order,
    lemma_select_splits, sweep_notice, sweep_notices, swept,
};
use crate::sine::Sine;
use crate::state::{
    handle, handle_all, is_note_on, lemma_handle_all_keeps_count, note_ons, Outcome, SynthState,
};
use crate::MAX_BLOCK_SIZE;
use vstd::prelude::*;

verus! {

/// One sub-block of a buffer: the samples from `start` up to `end`.
#[derive(Debug, PartialEq, Eq)]
pub struct SubBlock {
    pub start: u32,
    pub end: u32,
    /// The events from `first_event` up to `next_event` took effect at `start`.
    pub first_event: usize,
    pub next_event: usize,
    /// The gain commands of those events, to be carried out before mixing.
    pub commands: Vec<GainCommand>,
    /// The voices that sound throughout the sub-block, in pool order, as they
    /// stand at `start`: each produces its samples from its `curr_sample` on.
    pub voices: Vec<Sine>,
}

/// A sub-block as a value of the model.
pub struct SubBlockView {
    pub start: int,
    pub end: int,
    pub first_event: int,
    pub next_event: int,
    pub commands: Seq<GainCommand>,
    pub voices: Seq<Sine>,
}

impl View for SubBlock {
    type V = SubBlockView;

    open spec fn view(&self) -> SubBlockView {
        SubBlockView {
            start: self.start as int,
            end: self.end as int,
            first_event: self.first_event as int,
            next_event: self.next_event as int,
            commands: self.commands@,
            voices: self.voices@,
        }
    }
}

/// What processing one buffer gives.
#[derive(Debug, PartialEq, Eq)]
pub struct ProcessOutput {
    /// The sub-blocks, from the first sample of the buffer to the last.
    pub blocks: Vec<SubBlock>,
    /// The notifications for the host, in the order in which they arose.
    pub terminated: Vec<VoiceTerminated>,
    /// How many of the events were handled. Those that are due at the end of
    /// the buffer or later are left for the next call.
    pub consumed: usize,
}

/// The result of processing as a value of the model.
pub struct ProcessView {
    pub blocks: Seq<SubBlockView>,
    pub terminated: Seq<VoiceTerminated>,
    pub consumed: int,
}

/// The sub-blocks as values of the model.
pub open spec fn block_views(blocks: Seq<SubBlock>) -> Seq<SubBlockView> {
    blocks.map_values(|b: SubBlock| b@)
}

impl View for ProcessOutput {
    type V = ProcessView;

    open spec fn view(&self) -> ProcessView {
        ProcessView {
            blocks: block_views(self.blocks@),
            terminated: self.terminated@,
            consumed: self.consumed as int,
        }
    }
}

/// Where the scan at a boundary stops: at the first event from `from` on that
/// is due after `start`, or behind the last event.
pub open spec fn scan_end(events: Seq<NoteEvent>, from: int, start: int) -> int
    decreases events.len() - from,
{
    if 0 <= from < events.len() && events[from].timing() <= start {
        scan_end(events, from + 1, start)
    } else {
        from
    }
}

/// Where a sub-block that begins at `start` ends if no event cuts it short.
pub open spec fn block_cap(start: int, buffer_len: int) -> int {
    if buffer_len - start > MAX_BLOCK_SIZE {
        start + MAX_BLOCK_SIZE
    } else {
        buffer_len
    }
}

/// Where a sub-block that begins at `start` ends, `next` being the first event
/// that has not been handled: where that event is due, if that lies within the
/// sub-block, and else at the cap.
pub open spec fn block_end(events: Seq<NoteEvent>, next: int, start: int, buffer_len: int) -> int {
    let cap = block_cap(start, buffer_len);
    if 0 <= next < events.len() && start < events[next].timing() < cap {
        events[next].timing() as int
    } else {
        cap
    }
}

/// What the boundary at `start` does, `from` being the first event that has
/// not been handled: the events that are due are handled in turn.
pub open spec fn begun(
    state: SynthState,
    sampling_rate: u32,
    events: Seq<NoteEvent>,
    from: int,
    start: int,
) -> Outcome {
    handle_all(state, sampling_rate, events.subrange(from, scan_end(events, from, start)))
}

/// The pool when a sub-block of `n` samples is over: every voice has sounded
/// throughout, and the releasing ones have left.
pub open spec fn ended(pool: Seq<Sine>, n: int) -> Seq<Sine> {
    swept(advanced(pool, n))
}

/// What the end of a sub-block of `n` samples tells the host, `block_end`
/// being the timing.
pub open spec fn ending_notices(pool: Seq<Sine>, n: int, block_end: u32) -> Seq<VoiceTerminated> {
    sweep_notices(advanced(pool, n), block_end)
}

/// One sub-block and what it leaves behind.
pub struct Turn {
    pub block: SubBlockView,
    pub state: SynthState,
    pub terminated: Seq<VoiceTerminated>,
}

/// The sub-block that begins at `start`, with `from` the first event that has
/// not been handled. The events that are due are handled in turn; the voices
/// that then stand in the pool sound to the end of the sub-block; then the
/// releasing ones are swept out.
pub open spec fn turn(
    state: SynthState,
    sampling_rate: u32,
    events: Seq<NoteEvent>,
    from: int,
    start: int,
    buffer_len: int,
) -> Turn {
    let next = scan_end(events, from, start);
    let scanned = begun(state, sampling_rate, events, from, start);
    let end = block_end(events, next, start, buffer_len);
    Turn {
        block: SubBlockView {
            start,
            end,
            first_event: from,
            next_event: next,
            commands: scanned.commands,
            voices: scanned.state.sines,
        },
        state: scanned.state.with_sines(ended(scanned.state.sines, end - start)),
        terminated: scanned.terminated + ending_notices(
            scanned.state.sines,
            end - start,
            end as u32,
        ),
    }
}

/// The state after processing, and the result.
pub struct Processed {
    pub state: SynthState,
    pub output: ProcessView,
}

/// Processing from sample `start` to the end of the buffer, with `from` the
/// first event that has not been handled.
pub open spec fn run(
    state: SynthState,
    sampling_rate: u32,
    events: Seq<NoteEvent>,
    from: int,
    start: int,
    buffer_len: int,
) -> Processed
    decreases buffer_len - start,
{
    if start >= buffer_len {
        Processed {
            state,
            output: ProcessView { blocks: Seq::empty(), terminated: Seq::empty(), consumed: from },
        }
    } else {
        let first = turn(state, sampling_rate, events, from, start, buffer_len);
        let rest = run(
            first.state,
            sampling_rate,
            events,
            first.block.next_event,
            first.block.end,
            buffer_len,
        );
        Processed {
            state: rest.state,
            output: ProcessView {
                blocks: seq![first.block] + rest.output.blocks,
                terminated: first.terminated + rest.output.terminated,
                consumed: rest.output.consumed,
            },
        }
    }
}

/// Processing a whole buffer.
pub open spec fn processed(
    state: SynthState,
    buffer_len: u32,
    sampling_rate: u32,
    events: Seq<NoteEvent>,
) -> Processed {
    run(state, sampling_rate, events, 0, 0, buffer_len as int)
}

/// Events in the order of their timing, as the host hands them over.
pub open spec fn in_order(events: Seq<NoteEvent>) -> bool {
    forall|i: int, j: int|
        0 <= i <= j < events.len() ==> (#[trigger] events[i]).timing() <= (
        #[trigger] events[j]).timing()
}

/// A sub-block as the scheduler makes it: not empty and not longer than
/// `MAX_BLOCK_SIZE`; the events handled at its start are those that the scan
/// finds due; it ends where the first event that is not due says, or at the
/// cap.
pub open spec fn well_cut(block: SubBlockView, events: Seq<NoteEvent>, buffer_len: int) -> bool {
    &&& 0 <= block.start < block.end <= buffer_len
    &&& block.end - block.start <= MAX_BLOCK_SIZE
    &&& 0 <= block.first_event <= block.next_event <= events.len()
    &&& block.next_event == scan_end(events, block.first_event, block.start)
    &&& block.end == block_end(events, block.next_event, block.start, buffer_len)
}

/// Whether the voices of every sub-block follow those of the sub-block before
/// it, each moved on by the length of that sub-block, without those that were
/// releasing there: the voices of the first follow `before`, and `after`
/// follows the voices of the last.
pub open spec fn in_line(before: Seq<Sine>, blocks: Seq<SubBlockView>, after: Seq<Sine>) -> bool {
    &&& blocks.len() == 0 ==> after == before
    &&& blocks.len() > 0 ==> {
        &&& follows(before, blocks[0].voices, 0)
        &&& follows(blocks.last().voices, after, blocks.last().end - blocks.last().start)
        &&& gone(blocks.last().voices, after)
    }
    &&& forall|i: int|
        0 <= i < blocks.len() - 1 ==> follows(
            (#[trigger] blocks[i]).voices,
            blocks[i + 1].voices,
            blocks[i].end - blocks[i].start,
        ) && gone(blocks[i].voices, blocks[i + 1].voices)
}

/// Two events that are due at the same time and do the same to every state.
pub open spec fn alike(a: NoteEvent, b: NoteEvent, sampling_rate: u32) -> bool {
    &&& a.timing() == b.timing()
    &&& forall|state: SynthState| #[trigger]
        handle(state, sampling_rate, a) == handle(state, sampling_rate, b)
}

/// Two runs of events that are alike one by one.
pub open spec fn all_alike(a: Seq<NoteEvent>, b: Seq<NoteEvent>, sampling_rate: u32) -> bool {
    &&& a.len() == b.len()
    &&& forall|k: int| 0 <= k < a.len() ==> alike(#[trigger] a[k], b[k], sampling_rate)
}

/// The scan stops within the events; what it passes is due, and what it stops
/// at is not.
pub proof fn lemma_scan_end(events: Seq<NoteEvent>, from: int, start: int)
    requires
        0 <= from <= events.len(),
    ensures
        from <= scan_end(events, from, start) <= events.len(),
        forall|k: int|
            from <= k < scan_end(events, from, start) ==> (#[trigger] events[k]).timing() <= start,
        scan_end(events, from, start) < events.len() ==> events[scan_end(
            events,
            from,
            start,
        )].timing() > start,
    decreases events.len() - from,
{
    if from < events.len() && events[from].timing() <= start {
        lemma_scan_end(events, from + 1, start);
    }
}

/// The sub-blocks of a run lie end to end from `start` to the end of the
/// buffer, each of them well cut, and so do the events that they handle, from
/// `from` on.
pub proof fn lemma_run_is_well_cut(
    state: SynthState,
    sampling_rate: u32,
    events: Seq<NoteEvent>,
    from: int,
    start: int,
    buffer_len: int,
)
    requires
        0 <= from <= events.len(),
        0 <= start,
    ensures
        ({
            let done = run(state, sampling_rate, events, from, start, buffer_len);
            let blocks = done.output.blocks;
            &&& from <= done.output.consumed <= events.len()
            &&& start >= buffer_len ==> blocks.len() == 0 && done.output.consumed == from
            &&& start < buffer_len ==> {
                &&& blocks.len() > 0
                &&& blocks[0].start == start
                &&& blocks[0].first_event == from
                &&& blocks.last().end == buffer_len
                &&& blocks.last().next_event == done.output.consumed
            }
            &&& forall|i: int|
                0 <= i < blocks.len() ==> well_cut(#[trigger] blocks[i], events, buffer_len)
            &&& forall|i: int|
                0 <= i < blocks.len() - 1 ==> (#[trigger] blocks[i]).end == blocks[i + 1].start
                    && blocks[i].next_event == blocks[i + 1].first_event
        }),
    decreases buffer_len - start,
{
    if start < buffer_len {
        let first = turn(state, sampling_rate, events, from, start, buffer_len);
        lemma_scan_end(events, from, start);
        lemma_run_is_well_cut(
            first.state,
            sampling_rate,
            events,
            first.block.next_event,
            first.block.end,
            buffer_len,
        );
        let rest = run(
            first.state,
            sampling_rate,
            events,
            first.block.next_event,
            first.block.end,
            buffer_len,
        ).output.blocks;
        let blocks = run(state, sampling_rate, events, from, start, buffer_len).output.blocks;
        assert(blocks =~= seq![first.block] + rest);
        assert(well_cut(first.block, events, buffer_len));
        assert forall|i: int| 0 <= i < blocks.len() implies well_cut(
            #[trigger] blocks[i],
            events,
            buffer_len,
        ) by {
            if i > 0 {
                assert(blocks[i] == rest[i - 1]);
            }
        }
        assert forall|i: int| 0 <= i < blocks.len() - 1 implies (#[trigger] blocks[i]).end
            == blocks[i + 1].start && blocks[i].next_event == blocks[i + 1].first_event by {
            assert(blocks[i + 1] == rest[i]);
            if i > 0 {
                assert(blocks[i] == rest[i - 1]);
            }
        }
    }
}

/// Whether one of the sub-blocks handles event `k` at its start.
pub open spec fn handled_in(blocks: Seq<SubBlockView>, k: int) -> bool {
    exists|i: int|
        0 <= i < blocks.len() && (#[trigger] blocks[i]).first_event <= k < blocks[i].next_event
}

/// Every event that a run handles is handled at the start of one of its
/// sub-blocks.
pub proof fn lemma_run_shares_events(
    state: SynthState,
    sampling_rate: u32,
    events: Seq<NoteEvent>,
    from: int,
    start: int,
    buffer_len: int,
)
    requires
        0 <= from <= events.len(),
        0 <= start,
    ensures
        ({
            let done = run(state, sampling_rate, events, from, start, buffer_len);
            let blocks = done.output.blocks;
            forall|k: int| from <= k < done.output.consumed ==> #[trigger] handled_in(blocks, k)
        }),
    decreases buffer_len - start,
{
    if start < buffer_len {
        let first = turn(state, sampling_rate, events, from, start, buffer_len);
        let next = first.block.next_event;
        let end = first.block.end;
        lemma_scan_end(events, from, start);
        lemma_run_shares_events(first.state, sampling_rate, events, next, end, buffer_len);
        let after = run(first.state, sampling_rate, events, next, end, buffer_len);
        let rest = after.output.blocks;
        let done = run(state, sampling_rate, events, from, start, buffer_len);
        let blocks = done.output.blocks;
        assert(blocks =~= seq![first.block] + rest);
        assert forall|k: int| from <= k < done.output.consumed implies #[trigger] handled_in(
            blocks,
            k,
        ) by {
            if k < next {
                assert(blocks[0].first_event <= k < blocks[0].next_event);
            } else {
                assert(handled_in(rest, k));
                let i = choose|i: int|
                    0 <= i < rest.len() && (#[trigger] rest[i]).first_event <= k
                        < rest[i].next_event;
                assert(blocks[i + 1] == rest[i]);
                assert(blocks[i + 1].first_event <= k < blocks[i + 1].next_event);
            }
        }
    }
}

/// With the events in order, each is handled at the boundary that is its
/// timing, none is due inside a sub-block, and those that are due before the
/// end of the buffer are the ones that are handled.
pub proof fn lemma_run_in_order(
    state: SynthState,
    sampling_rate: u32,
    events: Seq<NoteEvent>,
    from: int,
    start: int,
    buffer_len: int,
)
    requires
        0 <= from <= events.len(),
        0 <= start,
        in_order(events),
        forall|k: int| 0 <= k < from ==> (#[trigger] events[k]).timing() <= start,
        forall|k: int| from <= k < events.len() ==> (#[trigger] events[k]).timing() >= start,
    ensures
        ({
            let done = run(state, sampling_rate, events, from, start, buffer_len);
            let blocks = done.output.blocks;
            &&& forall|i: int, k: int|
                0 <= i < blocks.len() && (#[trigger] blocks[i]).first_event <= k
                    < blocks[i].next_event ==> (#[trigger] events[k]).timing() == blocks[i].start
            &&& forall|i: int, k: int|
                0 <= i < blocks.len() && 0 <= k < events.len() ==> !((#[trigger] blocks[i]).start
                    < (#[trigger] events[k]).timing() < blocks[i].end)
            &&& forall|k: int|
                from <= k < events.len() ==> (k < done.output.consumed <==> (
                #[trigger] events[k]).timing() < buffer_len)
        }),
    decreases buffer_len - start,
{
    if start < buffer_len {
        let first = turn(state, sampling_rate, events, from, start, buffer_len);
        let next = first.block.next_event;
        let end = first.block.end;
        lemma_scan_end(events, from, start);
        assert forall|k: int| next <= k < events.len() implies (#[trigger] events[k]).timing()
            >= end by {
            assert(events[next].timing() <= events[k].timing());
        }
        lemma_run_in_order(first.state, sampling_rate, events, next, end, buffer_len);
        lemma_run_is_well_cut(first.state, sampling_rate, events, next, end, buffer_len);
        let after = run(first.state, sampling_rate, events, next, end, buffer_len);
        let rest = after.output.blocks;
        let blocks = run(state, sampling_rate, events, from, start, buffer_len).output.blocks;
        assert(blocks =~= seq![first.block] + rest);
        assert forall|i: int, k: int|
            0 <= i < blocks.len() && (#[trigger] blocks[i]).first_event <= k
                < blocks[i].next_event implies (#[trigger] events[k]).timing()
            == blocks[i].start by {
            if i > 0 {
                assert(blocks[i] == rest[i - 1]);
            }
        }
        assert forall|i: int, k: int| 0 <= i < blocks.len() && 0 <= k < events.len() implies !((
        #[trigger] blocks[i]).start < (#[trigger] events[k]).timing() < blocks[i].end) by {
            if i > 0 {
                assert(blocks[i] == rest[i - 1]);
            }
        }
    }
}

/// A run loses no voice and makes none without a trace. Each note-on that is
/// handled takes one handle, and the handles stay in order. When the run is
/// over, the voices in the pool and the notifications together are as many as
/// the voices before and the note-ons that were handled. And once a sub-block
/// has passed, no releasing voice is left in the pool.
pub proof fn lemma_run_keeps_count(
    state: SynthState,
    sampling_rate: u32,
    events: Seq<NoteEvent>,
    from: int,
    start: int,
    buffer_len: int,
)
    requires
        0 <= from <= events.len(),
        0 <= start,
    ensures
        ({
            let done = run(state, sampling_rate, events, from, start, buffer_len);
            let handled = events.subrange(from, done.output.consumed);
            &&& from <= done.output.consumed <= events.len()
            &&& done.state.next_id == state.next_id + note_ons(handled)
            &&& note_ons(handled) <= done.output.consumed - from
            &&& state.wf() && state.next_id + (events.len() - from) <= u64::MAX
                ==> done.state.wf()
            &&& done.state.sines.len() + done.output.terminated.len() == state.sines.len()
                + note_ons(handled)
            &&& start < buffer_len ==> forall|i: int|
                0 <= i < done.state.sines.len() ==> !(#[trigger] done.state.sines[i]).releasing
        }),
    decreases buffer_len - start,
{
    if start < buffer_len {
        let first = turn(state, sampling_rate, events, from, start, buffer_len);
        let next = first.block.next_event;
        let end = first.block.end;
        lemma_scan_end(events, from, start);
        let due = events.subrange(from, next);
        lemma_handle_all_keeps_count(state, sampling_rate, due);
        let scanned = handle_all(state, sampling_rate, due);
        let mixed = advanced(scanned.state.sines, end - start);
        lemma_select_keeps_order(mixed, is_held());
        lemma_select_splits(mixed, is_releasing(), is_held());
        assert(scanned.state.wf() ==> first.state.wf());
        lemma_run_is_well_cut(first.state, sampling_rate, events, next, end, buffer_len);
        lemma_run_keeps_count(first.state, sampling_rate, events, next, end, buffer_len);
        let done = run(state, sampling_rate, events, from, start, buffer_len);
        let later = events.subrange(next, done.output.consumed);
        assert(events.subrange(from, done.output.consumed) =~= due + later);
        Seq::filter_distributes_over_add(due, later, is_note_on());
    } else {
        assert(events.subrange(from, from) =~= Seq::empty());
        reveal(Seq::filter);
    }
}

/// Through a run every voice keeps its phase in step with the samples: what
/// sounds in a sub-block is what sounded in the one before, moved on by its
/// length, or was started at the boundary between them. And in every
/// sub-block the handles tell the voices apart.
pub proof fn lemma_run_is_in_line(
    state: SynthState,
    sampling_rate: u32,
    events: Seq<NoteEvent>,
    from: int,
    start: int,
    buffer_len: int,
)
    requires
        0 <= from <= events.len(),
        0 <= start,
        buffer_len <= u32::MAX,
        state.wf(),
        state.next_id + (events.len() - from) <= u64::MAX,
        start < buffer_len ==> has_headroom(state.sines, buffer_len - start),
    ensures
        ({
            let done = run(state, sampling_rate, events, from, start, buffer_len);
            let blocks = done.output.blocks;
            &&& in_line(state.sines, blocks, done.state.sines)
            &&& blocks.len() > 0 ==> descends(state.sines, blocks[0].voices, 0, state.next_id)
            &&& forall|i: int|
                0 <= i < blocks.len() ==> handles_distinct((#[trigger] blocks[i]).voices)
        }),
    decreases buffer_len - start,
{
    if start < buffer_len {
        let first = turn(state, sampling_rate, events, from, start, buffer_len);
        let next = first.block.next_event;
        let end = first.block.end;
        let sounding = first.block.voices;
        let bound = first.state.next_id;
        lemma_scan_end(events, from, start);
        let due = events.subrange(from, next);
        lemma_handle_all_keeps_count(state, sampling_rate, due);
        lemma_handle_all_descends(state, sampling_rate, due, buffer_len - start);
        lemma_descends_follows(state.sines, sounding, 0, state.next_id);
        assert(has_headroom(sounding, end - start));
        lemma_mixing_descends(sounding, end - start, bound);
        assert(has_headroom(sounding, (end - start) + (buffer_len - end)));
        lemma_select_keeps_order(advanced(sounding, end - start), is_held());
        assert(first.state.wf());
        lemma_run_is_in_line(first.state, sampling_rate, events, next, end, buffer_len);
        let after = run(first.state, sampling_rate, events, next, end, buffer_len);
        let rest = after.output.blocks;
        let done = run(state, sampling_rate, events, from, start, buffer_len);
        let blocks = done.output.blocks;
        assert(blocks =~= seq![first.block] + rest);
        if rest.len() > 0 {
            lemma_descends_further(
                sounding,
                first.state.sines,
                rest[0].voices,
                end - start,
                bound,
                bound,
            );
            lemma_descends_follows(sounding, rest[0].voices, end - start, bound);
            lemma_released_are_gone(sounding, end - start, bound, rest[0].voices);
            assert(blocks.last() == rest.last());
        } else {
            lemma_descends_follows(sounding, first.state.sines, end - start, bound);
            lemma_descends_from_itself(first.state.sines, bound);
            lemma_released_are_gone(sounding, end - start, bound, first.state.sines);
        }
        assert forall|i: int| 0 <= i < blocks.len() - 1 implies follows(
            (#[trigger] blocks[i]).voices,
            blocks[i + 1].voices,
            blocks[i].end - blocks[i].start,
        ) && gone(blocks[i].voices, blocks[i + 1].voices) by {
            assert(blocks[i + 1] == rest[i]);
            if i > 0 {
                assert(blocks[i] == rest[i - 1]);
            }
        }
        assert forall|i: int| 0 <= i < blocks.len() implies handles_distinct(
            (#[trigger] blocks[i]).voices,
        ) by {
            if i > 0 {
                assert(blocks[i] == rest[i - 1]);
            }
        }
    }
}

/// What sounds in a sub-block of a run stems from the pool at the start of
/// the run, with the samples from there to the start of the sub-block between
/// them.
pub proof fn lemma_run_stems(
    state: SynthState,
    sampling_rate: u32,
    events: Seq<NoteEvent>,
    from: int,
    start: int,
    buffer_len: int,
    j: int,
)
    requires
        0 <= from <= events.len(),
        0 <= start,
        buffer_len <= u32::MAX,
        state.next_id + (events.len() - from) <= u64::MAX,
        start < buffer_len ==> has_headroom(state.sines, buffer_len - start),
        0 <= j < run(state, sampling_rate, events, from, start, buffer_len).output.blocks.len(),
    ensures
        ({
            let blocks = run(state, sampling_rate, events, from, start, buffer_len).output.blocks;
            stems_from(state.sines, blocks[j].voices, blocks[j].start - start, state.next_id)
        }),
    decreases j,
{
    let first = turn(state, sampling_rate, events, from, start, buffer_len);
    let next = first.block.next_event;
    let end = first.block.end;
    let sounding = first.block.voices;
    lemma_scan_end(events, from, start);
    let due = events.subrange(from, next);
    lemma_handle_all_keeps_count(state, sampling_rate, due);
    lemma_handle_all_descends(state, sampling_rate, due, buffer_len - start);
    let rest = run(first.state, sampling_rate, events, next, end, buffer_len).output.blocks;
    let blocks = run(state, sampling_rate, events, from, start, buffer_len).output.blocks;
    assert(blocks =~= seq![first.block] + rest);
    if j > 0 {
        assert(has_headroom(sounding, end - start));
        lemma_mixing_descends(sounding, end - start, state.next_id);
        assert(has_headroom(sounding, (end - start) + (buffer_len - end)));
        assert(blocks[j] == rest[j - 1]);
        lemma_run_stems(first.state, sampling_rate, events, next, end, buffer_len, j - 1);
        lemma_stems_further(
            state.sines,
            sounding,
            first.state.sines,
            0,
            end - start,
            state.next_id,
            state.next_id,
        );
        lemma_stems_further(
            state.sines,
            first.state.sines,
            rest[j - 1].voices,
            end - start,
            rest[j - 1].start - end,
            state.next_id,
            first.state.next_id,
        );
    }
}

/// Two voices of a run that bear the same handle are the same voice: the one
/// in the later sub-block is the one in the earlier, moved on by the samples
/// between the starts of the two.
pub proof fn lemma_run_tells_voices_apart(
    state: SynthState,
    sampling_rate: u32,
    events: Seq<NoteEvent>,
    from: int,
    start: int,
    buffer_len: int,
    i: int,
    j: int,
    a: int,
    b: int,
)
    requires
        0 <= from <= events.len(),
        0 <= start,
        buffer_len <= u32::MAX,
        state.wf(),
        state.next_id + (events.len() - from) <= u64::MAX,
        start < buffer_len ==> has_headroom(state.sines, buffer_len - start),
        0 <= i < j < run(state, sampling_rate, events, from, start, buffer_len).output.blocks.len(),
        0 <= a < run(
            state,
            sampling_rate,
            events,
            from,
            start,
            buffer_len,
        ).output.blocks[i].voices.len(),
        0 <= b < run(
            state,
            sampling_rate,
            events,
            from,
            start,
            buffer_len,
        ).output.blocks[j].voices.len(),
        run(state, sampling_rate, events, from, start, buffer_len).output.blocks[i].voices[a].id
            == run(
            state,
            sampling_rate,
            events,
            from,
            start,
            buffer_len,
        ).output.blocks[j].voices[b].id,
    ensures
        ({
            let blocks = run(state, sampling_rate, events, from, start, buffer_len).output.blocks;
            &&& blocks[i].voices[a].continued_by(
                blocks[j].voices[b],
                blocks[j].start - blocks[i].start,
            )
            &&& !blocks[i].voices[a].releasing
        }),
    decreases i,
{
    let first = turn(state, sampling_rate, events, from, start, buffer_len);
    let next = first.block.next_event;
    let end = first.block.end;
    let sounding = first.block.voices;
    let bound = first.state.next_id;
    lemma_scan_end(events, from, start);
    let due = events.subrange(from, next);
    lemma_handle_all_keeps_count(state, sampling_rate, due);
    lemma_handle_all_descends(state, sampling_rate, due, buffer_len - start);
    assert(has_headroom(sounding, end - start));
    lemma_mixing_descends(sounding, end - start, bound);
    assert(has_headroom(sounding, (end - start) + (buffer_len - end)));
    let mixed = advanced(sounding, end - start);
    lemma_select_keeps_order(mixed, is_held());
    assert(first.state.wf());
    let rest = run(first.state, sampling_rate, events, next, end, buffer_len).output.blocks;
    let blocks = run(state, sampling_rate, events, from, start, buffer_len).output.blocks;
    assert(blocks =~= seq![first.block] + rest);
    assert(blocks[j] == rest[j - 1]);
    if i > 0 {
        assert(blocks[i] == rest[i - 1]);
        lemma_run_tells_voices_apart(
            first.state,
            sampling_rate,
            events,
            next,
            end,
            buffer_len,
            i - 1,
            j - 1,
            a,
            b,
        );
    } else {
        lemma_run_stems(first.state, sampling_rate, events, next, end, buffer_len, j - 1);
        let earlier = sounding[a];
        let later = rest[j - 1].voices[b];
        let left = first.state.sines;
        assert(later.id < bound);
        let m = choose|m: int|
            0 <= m < left.len() && (#[trigger] left[m]).continued_by(
                #[trigger] rest[j - 1].voices[b],
                rest[j - 1].start - end,
            );
        let k = choose|k: int| 0 <= k < mixed.len() && #[trigger] mixed[k] == #[trigger] left[m];
        assert(mixed[k].id == sounding[k].id);
        assert(k == a);
        assert(!left[m].releasing);
    }
}

/// A voice that is releasing while a sub-block is mixed is reported, with the
/// end of that sub-block for the timing.
pub proof fn lemma_run_reports_releasing(
    state: SynthState,
    sampling_rate: u32,
    events: Seq<NoteEvent>,
    from: int,
    start: int,
    buffer_len: int,
    i: int,
    j: int,
)
    requires
        0 <= from <= events.len(),
        0 <= start,
        0 <= i < run(state, sampling_rate, events, from, start, buffer_len).output.blocks.len(),
        0 <= j < run(
            state,
            sampling_rate,
            events,
            from,
            start,
            buffer_len,
        ).output.blocks[i].voices.len(),
        run(
            state,
            sampling_rate,
            events,
            from,
            start,
            buffer_len,
        ).output.blocks[i].voices[j].releasing,
    ensures
        ({
            let done = run(state, sampling_rate, events, from, start, buffer_len);
            let block = done.output.blocks[i];
            done.output.terminated.contains(sweep_notice(block.end as u32)(block.voices[j]))
        }),
    decreases i,
{
    let first = turn(state, sampling_rate, events, from, start, buffer_len);
    let next = first.block.next_event;
    let end = first.block.end;
    lemma_scan_end(events, from, start);
    let after = run(first.state, sampling_rate, events, next, end, buffer_len);
    let rest = after.output.blocks;
    let done = run(state, sampling_rate, events, from, start, buffer_len);
    assert(done.output.blocks =~= seq![first.block] + rest);
    if i == 0 {
        let mixed = advanced(first.block.voices, end - start);
        let leaving = mixed.filter(is_releasing());
        let notices = sweep_notices(mixed, end as u32);
        let notice = sweep_notice(end as u32)(first.block.voices[j]);
        assert(is_releasing()(mixed[j]));
        mixed.lemma_filter_contains(is_releasing(), j);
        let k = choose|k: int| 0 <= k < leaving.len() && leaving[k] == mixed[j];
        assert(notices[k] == notice);
        let told = begun(state, sampling_rate, events, from, start).terminated;
        assert(first.terminated[told.len() + k] == notice);
        assert(done.output.terminated[told.len() + k] == notice);
    } else {
        assert(done.output.blocks[i] == rest[i - 1]);
        lemma_run_reports_releasing(
            first.state,
            sampling_rate,
            events,
            next,
            end,
            buffer_len,
            i - 1,
            j,
        );
        let notice = sweep_notice(rest[i - 1].end as u32)(rest[i - 1].voices[j]);
        let k = choose|k: int|
            0 <= k < after.output.terminated.len() && after.output.terminated[k] == notice;
        assert(done.output.terminated[first.terminated.len() + k] == notice);
    }
}

/// The scan goes by the timing of the events alone.
pub proof fn lemma_scan_end_alike(
    a: Seq<NoteEvent>,
    b: Seq<NoteEvent>,
    sampling_rate: u32,
    from: int,
    start: int,
)
    requires
        all_alike(a, b, sampling_rate),
    ensures
        scan_end(a, from, start) == scan_end(b, from, start),
    decreases a.len() - from,
{
    if 0 <= from < a.len() {
        assert(alike(a[from], b[from], sampling_rate));
        if a[from].timing() <= start {
            lemma_scan_end_alike(a, b, sampling_rate, from + 1, start);
        }
    }
}

/// Events that are alike leave the same behind.
pub proof fn lemma_handle_all_alike(
    state: SynthState,
    sampling_rate: u32,
    a: Seq<NoteEvent>,
    b: Seq<NoteEvent>,
)
    requires
        all_alike(a, b, sampling_rate),
    ensures
        handle_all(state, sampling_rate, a) == handle_all(state, sampling_rate, b),
    decreases a.len(),
{
    if a.len() > 0 {
        assert forall|k: int| 0 <= k < a.drop_last().len() implies alike(
            #[trigger] a.drop_last()[k],
            b.drop_last()[k],
            sampling_rate,
        ) by {
            assert(alike(a[k], b[k], sampling_rate));
        }
        lemma_handle_all_alike(state, sampling_rate, a.drop_last(), b.drop_last());
        assert(alike(a[a.len() - 1], b[a.len() - 1], sampling_rate));
    }
}

/// Processing goes by what the events do and when they are due, and by
/// nothing else about them.
pub proof fn lemma_run_alike(
    state: SynthState,
    sampling_rate: u32,
    a: Seq<NoteEvent>,
    b: Seq<NoteEvent>,
    from: int,
    start: int,
    buffer_len: int,
)
    requires
        all_alike(a, b, sampling_rate),
        0 <= from <= a.len(),
    ensures
        run(state, sampling_rate, a, from, start, buffer_len) == run(
            state,
            sampling_rate,
            b,
            from,
            start,
            buffer_len,
        ),
    decreases buffer_len - start,
{
    if start < buffer_len {
        let first = turn(state, sampling_rate, a, from, start, buffer_len);
        let next = first.block.next_event;
        lemma_scan_end(a, from, start);
        lemma_scan_end_alike(a, b, sampling_rate, from, start);
        assert forall|k: int| 0 <= k < next - from implies alike(
            #[trigger] a.subrange(from, next)[k],
            b.subrange(from, next)[k],
            sampling_rate,
        ) by {
            assert(alike(a[from + k], b[from + k], sampling_rate));
        }
        lemma_handle_all_alike(
            state,
            sampling_rate,
            a.subrange(from, next),
            b.subrange(from, next),
        );
        if next < a.len() {
            assert(alike(a[next], b[next], sampling_rate));
        }
        assert(first == turn(state, sampling_rate, b, from, start, buffer_len));
        lemma_run_alike(first.state, sampling_rate, a, b, next, first.block.end, buffer_len);
    }
}

} // verus!
