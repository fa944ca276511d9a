//! How the voices of one moment come from those of an earlier one.
//!
//! A voice keeps its handle, its pitch and its loudness for as long as it
//! sounds, and its phase moves on by one with every sample. Events set marks on
//! it and do nothing else to it.

use crate::event::NoteEvent;
use crate::pool::{
    advanced, handles_below, handles_distinct, has_headroom, is_held, lemma_select_keeps_order,
    spared, swept,
};
use crate::sine::Sine;
use crate::state::{
    can_handle, handle, handle_all, lemma_handle_all_keeps_count, lemma_handle_keeps_headroom,
    SynthState,
};
use vstd::prelude::*;

verus! {

/// Whether every voice of `after` is a voice of `before`, `n` samples on, or
/// one that has been started since: with a handle from `next_id` on and no
/// sample produced.
pub open spec fn descends(before: Seq<Sine>, after: Seq<Sine>, n: int, next_id: nat) -> bool {
    forall|j: int|
        0 <= j < after.len() ==> {
            ||| exists|i: int|
                0 <= i < before.len() && (#[trigger] before[i]).continued_by(#[trigger] after[j], n)
            ||| (#[trigger] after[j]).id >= next_id && after[j].curr_sample == 0
        }
}

/// Whether every voice of `after` is a voice of `before`, `n` samples on, or a
/// new one: a voice that has produced no sample and shares its handle with
/// none of `before`.
pub open spec fn follows(before: Seq<Sine>, after: Seq<Sine>, n: int) -> bool {
    forall|j: int|
        0 <= j < after.len() ==> {
            ||| exists|i: int|
                0 <= i < before.len() && (#[trigger] before[i]).continued_by(#[trigger] after[j], n)
            ||| (#[trigger] after[j]).curr_sample == 0 && forall|i: int|
                0 <= i < before.len() ==> (#[trigger] before[i]).id != after[j].id
        }
}

/// Whether every voice of `after` is a voice of `before`, `n` samples on, or
/// bears a handle from `next_id` on.
pub open spec fn stems_from(before: Seq<Sine>, after: Seq<Sine>, n: int, next_id: nat) -> bool {
    forall|j: int|
        0 <= j < after.len() ==> {
            ||| exists|i: int|
                0 <= i < before.len() && (#[trigger] before[i]).continued_by(#[trigger] after[j], n)
            ||| (#[trigger] after[j]).id >= next_id
        }
}

/// Whether the releasing voices of `before` are gone from `after`: no voice
/// there bears the handle of one.
pub open spec fn gone(before: Seq<Sine>, after: Seq<Sine>) -> bool {
    forall|i: int, j: int|
        0 <= i < before.len() && 0 <= j < after.len() && (#[trigger] before[i]).releasing ==> (
        #[trigger] after[j]).id != before[i].id
}

/// Every pool descends from itself.
pub proof fn lemma_descends_from_itself(pool: Seq<Sine>, next_id: nat)
    ensures
        descends(pool, pool, 0, next_id),
{
    assert forall|j: int| 0 <= j < pool.len() implies exists|i: int|
        0 <= i < pool.len() && (#[trigger] pool[i]).continued_by(#[trigger] pool[j], 0) by {
        assert(pool[j].continued_by(pool[j], 0));
    }
}

/// Descent goes on through a stretch in which no sample is produced.
pub proof fn lemma_descends_further(
    a: Seq<Sine>,
    b: Seq<Sine>,
    c: Seq<Sine>,
    n: int,
    first_id: nat,
    then_id: nat,
)
    requires
        descends(a, b, n, first_id),
        descends(b, c, 0, then_id),
        first_id <= then_id,
    ensures
        descends(a, c, n, first_id),
{
    assert forall|j: int| 0 <= j < c.len() implies {
        ||| exists|i: int| 0 <= i < a.len() && (#[trigger] a[i]).continued_by(#[trigger] c[j], n)
        ||| (#[trigger] c[j]).id >= first_id && c[j].curr_sample == 0
    } by {
        if exists|m: int| 0 <= m < b.len() && (#[trigger] b[m]).continued_by(#[trigger] c[j], 0) {
            let m = choose|m: int|
                0 <= m < b.len() && (#[trigger] b[m]).continued_by(#[trigger] c[j], 0);
            if exists|i: int|
                0 <= i < a.len() && (#[trigger] a[i]).continued_by(#[trigger] b[m], n) {
                let i = choose|i: int|
                    0 <= i < a.len() && (#[trigger] a[i]).continued_by(#[trigger] b[m], n);
                assert(a[i].continued_by(c[j], n));
            }
        }
    }
}

/// What stems from a pool and what stems from that in turn stems from the
/// pool, with the samples of both stretches between them.
pub proof fn lemma_stems_further(
    a: Seq<Sine>,
    b: Seq<Sine>,
    c: Seq<Sine>,
    n: int,
    m: int,
    first_id: nat,
    then_id: nat,
)
    requires
        stems_from(a, b, n, first_id),
        stems_from(b, c, m, then_id),
        first_id <= then_id,
    ensures
        stems_from(a, c, n + m, first_id),
{
    assert forall|j: int| 0 <= j < c.len() implies {
        ||| exists|i: int|
            0 <= i < a.len() && (#[trigger] a[i]).continued_by(#[trigger] c[j], n + m)
        ||| (#[trigger] c[j]).id >= first_id
    } by {
        if exists|k: int| 0 <= k < b.len() && (#[trigger] b[k]).continued_by(#[trigger] c[j], m) {
            let k = choose|k: int|
                0 <= k < b.len() && (#[trigger] b[k]).continued_by(#[trigger] c[j], m);
            if exists|i: int|
                0 <= i < a.len() && (#[trigger] a[i]).continued_by(#[trigger] b[k], n) {
                let i = choose|i: int|
                    0 <= i < a.len() && (#[trigger] a[i]).continued_by(#[trigger] b[k], n);
                assert(a[i].continued_by(c[j], n + m));
            }
        }
    }
}

/// A voice with a handle from `bound` on is new to a pool whose handles lie
/// below `bound`.
pub proof fn lemma_descends_follows(before: Seq<Sine>, after: Seq<Sine>, n: int, bound: nat)
    requires
        descends(before, after, n, bound),
        handles_below(before, bound),
    ensures
        follows(before, after, n),
{
}

/// The voices that are left when the pool has sounded for `n` samples and the
/// releasing ones have been swept out are voices of the pool, `n` samples on.
/// What headroom the pool had beyond `n` is left.
pub proof fn lemma_mixing_descends(pool: Seq<Sine>, n: int, next_id: nat)
    requires
        0 <= n,
        has_headroom(pool, n),
    ensures
        descends(pool, swept(advanced(pool, n)), n, next_id),
        forall|m: int|
            0 <= m && has_headroom(pool, n + m) ==> has_headroom(swept(advanced(pool, n)), m),
{
    let mixed = advanced(pool, n);
    let left = swept(mixed);
    lemma_select_keeps_order(mixed, is_held());
    assert forall|j: int| 0 <= j < left.len() implies exists|i: int|
        0 <= i < pool.len() && (#[trigger] pool[i]).continued_by(#[trigger] left[j], n) by {
        let i = choose|i: int| 0 <= i < mixed.len() && #[trigger] mixed[i] == #[trigger] left[j];
        assert(pool[i].continued_by(left[j], n));
    }
    assert forall|m: int| 0 <= m && has_headroom(pool, n + m) implies has_headroom(left, m) by {
        assert forall|j: int| 0 <= j < left.len() implies (#[trigger] left[j]).curr_sample + m
            <= u32::MAX by {
            let i = choose|i: int|
                0 <= i < mixed.len() && #[trigger] mixed[i] == #[trigger] left[j];
            assert(pool[i].curr_sample + n + m <= u32::MAX);
        }
    }
}

/// The voices that are swept out at the end of a sub-block do not sound in
/// what descends from the pool as it then stands.
pub proof fn lemma_released_are_gone(pool: Seq<Sine>, n: int, bound: nat, later: Seq<Sine>)
    requires
        handles_distinct(pool),
        handles_below(pool, bound),
        descends(swept(advanced(pool, n)), later, 0, bound),
    ensures
        gone(pool, later),
{
    let mixed = advanced(pool, n);
    let left = swept(mixed);
    lemma_select_keeps_order(mixed, is_held());
    assert forall|i: int, j: int|
        0 <= i < pool.len() && 0 <= j < later.len() && (#[trigger] pool[i]).releasing implies (
    #[trigger] later[j]).id != pool[i].id by {
        if exists|m: int|
            0 <= m < left.len() && (#[trigger] left[m]).continued_by(#[trigger] later[j], 0) {
            let m = choose|m: int|
                0 <= m < left.len() && (#[trigger] left[m]).continued_by(#[trigger] later[j], 0);
            let k = choose|k: int|
                0 <= k < mixed.len() && #[trigger] mixed[k] == #[trigger] left[m];
            assert(!left[m].releasing);
            assert(mixed[k].id == pool[k].id);
            assert(mixed[i].releasing);
            if later[j].id == pool[i].id {
                assert(pool[k].id == pool[i].id);
                assert(k == i);
            }
        }
    }
}

/// An event leaves every voice what it was, but for the marks that it sets:
/// the voices after it are voices from before, with their phase untouched, or
/// the one that it has started.
pub proof fn lemma_handle_descends(state: SynthState, sampling_rate: u32, event: NoteEvent)
    requires
        can_handle(state, event),
    ensures
        descends(state.sines, handle(state, sampling_rate, event).state.sines, 0, state.next_id),
{
    let after = handle(state, sampling_rate, event).state.sines;
    match event {
        NoteEvent::Choke { timing, voice_id, channel, note } => {
            lemma_select_keeps_order(state.sines, spared(voice_id, channel, note));
            assert forall|j: int| 0 <= j < after.len() implies exists|i: int|
                0 <= i < state.sines.len() && (#[trigger] state.sines[i]).continued_by(
                    #[trigger] after[j],
                    0,
                ) by {
                let i = choose|i: int|
                    0 <= i < state.sines.len() && #[trigger] state.sines[i] == #[trigger] after[j];
                assert(state.sines[i].continued_by(after[j], 0));
            }
        },
        NoteEvent::NoteOn { timing, voice_id, channel, note, velocity } => {
            assert forall|j: int| 0 <= j < after.len() implies {
                ||| exists|i: int|
                    0 <= i < state.sines.len() && (#[trigger] state.sines[i]).continued_by(
                        #[trigger] after[j],
                        0,
                    )
                ||| (#[trigger] after[j]).id >= state.next_id && after[j].curr_sample == 0
            } by {
                if j < state.sines.len() {
                    assert(state.sines[j].continued_by(after[j], 0));
                }
            }
        },
        _ => {
            assert forall|j: int| 0 <= j < after.len() implies exists|i: int|
                0 <= i < state.sines.len() && (#[trigger] state.sines[i]).continued_by(
                    #[trigger] after[j],
                    0,
                ) by {
                assert(state.sines[j].continued_by(after[j], 0));
            }
        },
    }
}

/// What holds of one event holds of a run of them: no headroom is taken
/// away, and the voices afterwards are voices from before, with their phase
/// untouched, or ones that were started.
pub proof fn lemma_handle_all_descends(
    state: SynthState,
    sampling_rate: u32,
    events: Seq<NoteEvent>,
    n: int,
)
    requires
        state.next_id + events.len() <= u64::MAX,
        0 <= n <= u32::MAX,
        has_headroom(state.sines, n),
    ensures
        has_headroom(handle_all(state, sampling_rate, events).state.sines, n),
        descends(
            state.sines,
            handle_all(state, sampling_rate, events).state.sines,
            0,
            state.next_id,
        ),
    decreases events.len(),
{
    if events.len() > 0 {
        let before = handle_all(state, sampling_rate, events.drop_last());
        lemma_handle_all_descends(state, sampling_rate, events.drop_last(), n);
        lemma_handle_all_keeps_count(state, sampling_rate, events.drop_last());
        lemma_handle_keeps_headroom(before.state, sampling_rate, events.last(), n);
        lemma_handle_descends(before.state, sampling_rate, events.last());
        lemma_descends_further(
            state.sines,
            before.state.sines,
            handle(before.state, sampling_rate, events.last()).state.sines,
            0,
            state.next_id,
            before.state.next_id,
        );
    } else {
        lemma_descends_from_itself(state.sines, state.next_id);
    }
}

} // verus!
