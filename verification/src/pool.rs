//! The voice pool as a sequence of voices, and what each operation makes of it.
//!
//! The order of the pool is the order in which the voices were started. It has
//! no bearing on the sound. It decides which voice a note-off with a voice id
//! reaches where several answer to it, and in which order commands and
//! notifications come.

use crate::event::{GainCommand, VoiceTerminated};
use crate::sine::Sine;
use crate::GAIN_POLY_MOD_ID;
use vstd::prelude::*;

verus! {

/// The voices that an event addressed to `voice_id`, `channel` and `note` means.
pub open spec fn addressed(voice_id: Option<i32>, channel: u8, note: u8) -> spec_fn(Sine) -> bool {
    |v: Sine| v.answers_to(voice_id, channel, note)
}

/// The voices that such an event does not mean.
pub open spec fn spared(voice_id: Option<i32>, channel: u8, note: u8) -> spec_fn(Sine) -> bool {
    |v: Sine| !v.answers_to(voice_id, channel, note)
}

/// The voices that a note-off has reached.
pub open spec fn is_releasing() -> spec_fn(Sine) -> bool {
    |v: Sine| v.releasing
}

/// The voices that no note-off has reached.
pub open spec fn is_held() -> spec_fn(Sine) -> bool {
    |v: Sine| !v.releasing
}

/// Whether a note-off marks the voice at position `i`. An event without a voice
/// id marks every voice that answers to it. One with a voice id marks the first
/// that answers and no other.
pub open spec fn release_marks(
    pool: Seq<Sine>,
    i: int,
    voice_id: Option<i32>,
    channel: u8,
    note: u8,
) -> bool {
    &&& 0 <= i < pool.len()
    &&& pool[i].answers_to(voice_id, channel, note)
    &&& voice_id is Some ==> forall|j: int|
        0 <= j < i ==> !(#[trigger] pool[j]).answers_to(voice_id, channel, note)
}

/// The pool after a note-off.
pub open spec fn released(pool: Seq<Sine>, voice_id: Option<i32>, channel: u8, note: u8) -> Seq<
    Sine,
> {
    Seq::new(
        pool.len(),
        |i: int|
            if release_marks(pool, i, voice_id, channel, note) {
                pool[i].marked()
            } else {
                pool[i]
            },
    )
}

/// The pool after a choke: every voice that answers is gone.
pub open spec fn choked(pool: Seq<Sine>, voice_id: Option<i32>, channel: u8, note: u8) -> Seq<
    Sine,
> {
    pool.filter(spared(voice_id, channel, note))
}

/// What a choke tells the host of a voice that it removes: the event's timing,
/// channel and note, and the voice's own id.
pub open spec fn choke_notice(timing: u32, channel: u8, note: u8) -> spec_fn(
    Sine,
) -> VoiceTerminated {
    |v: Sine| VoiceTerminated { timing, voice_id: v.voice_id, channel, note }
}

/// The notifications of a choke, in pool order.
pub open spec fn choke_notices(
    pool: Seq<Sine>,
    timing: u32,
    voice_id: Option<i32>,
    channel: u8,
    note: u8,
) -> Seq<VoiceTerminated> {
    pool.filter(addressed(voice_id, channel, note)).map_values(choke_notice(timing, channel, note))
}

/// The pool after the sweep at the end of a sub-block: the releasing voices
/// are gone.
pub open spec fn swept(pool: Seq<Sine>) -> Seq<Sine> {
    pool.filter(is_held())
}

/// What a sweep tells the host of a voice that it removes.
pub open spec fn sweep_notice(timing: u32) -> spec_fn(Sine) -> VoiceTerminated {
    |v: Sine| VoiceTerminated { timing, voice_id: v.voice_id, channel: v.channel, note: v.note }
}

/// The notifications of a sweep, in pool order.
pub open spec fn sweep_notices(pool: Seq<Sine>, timing: u32) -> Seq<VoiceTerminated> {
    pool.filter(is_releasing()).map_values(sweep_notice(timing))
}

/// A voice moved on by `n` samples.
pub open spec fn sounded(n: int) -> spec_fn(Sine) -> Sine {
    |v: Sine| v.advanced(n)
}

/// The pool after every voice has produced `n` samples.
pub open spec fn advanced(pool: Seq<Sine>, n: int) -> Seq<Sine> {
    pool.map_values(sounded(n))
}

/// Whether every voice can produce `n` more samples before its phase counter
/// runs out.
pub open spec fn has_headroom(pool: Seq<Sine>, n: int) -> bool {
    forall|i: int| 0 <= i < pool.len() ==> (#[trigger] pool[i]).curr_sample + n <= u32::MAX
}

/// Whether every handle in the pool lies below `bound`.
pub open spec fn handles_below(pool: Seq<Sine>, bound: nat) -> bool {
    forall|i: int| 0 <= i < pool.len() ==> (#[trigger] pool[i]).id < bound
}

/// Whether no two voices of the pool share a handle.
pub open spec fn handles_distinct(pool: Seq<Sine>) -> bool {
    forall|i: int, j: int|
        0 <= i < j < pool.len() ==> (#[trigger] pool[i]).id != (#[trigger] pool[j]).id
}

/// The voices that a polyphonic modulation reaches: those with this voice id,
/// and none where the modulation id is not the gain's.
pub open spec fn modulation_reaches(voice_id: i32, poly_modulation_id: u32) -> spec_fn(
    Sine,
) -> bool {
    |v: Sine| poly_modulation_id == GAIN_POLY_MOD_ID && v.voice_id == Some(voice_id)
}

/// What a polyphonic modulation makes of one voice.
pub open spec fn modulation_of(
    voice_id: i32,
    poly_modulation_id: u32,
    normalized_offset: u32,
) -> spec_fn(Sine) -> Sine {
    |v: Sine|
        if modulation_reaches(voice_id, poly_modulation_id)(v) {
            v.modulated(normalized_offset)
        } else {
            v
        }
}

/// The pool after a polyphonic modulation.
pub open spec fn modulated(
    pool: Seq<Sine>,
    voice_id: i32,
    poly_modulation_id: u32,
    normalized_offset: u32,
) -> Seq<Sine> {
    pool.map_values(modulation_of(voice_id, poly_modulation_id, normalized_offset))
}

/// The command that a polyphonic modulation gives for a voice that it reaches.
pub open spec fn modulate_command(normalized_offset: u32) -> spec_fn(Sine) -> GainCommand {
    |v: Sine| GainCommand::Modulate { id: v.id, fresh: v.voice_gain is None, normalized_offset }
}

/// The commands of a polyphonic modulation, in pool order.
pub open spec fn modulate_commands(
    pool: Seq<Sine>,
    voice_id: i32,
    poly_modulation_id: u32,
    normalized_offset: u32,
) -> Seq<GainCommand> {
    pool.filter(modulation_reaches(voice_id, poly_modulation_id)).map_values(
        modulate_command(normalized_offset),
    )
}

/// The voices that an automation of the whole instrument reaches: those whose
/// gain has been modulated before, and none where the modulation id is not the
/// gain's.
pub open spec fn automation_reaches(poly_modulation_id: u32) -> spec_fn(Sine) -> bool {
    |v: Sine| poly_modulation_id == GAIN_POLY_MOD_ID && v.voice_gain is Some
}

/// The command that an automation gives for a voice that it reaches.
pub open spec fn automate_command(normalized_value: u32) -> spec_fn(Sine) -> GainCommand {
    |v: Sine|
        GainCommand::Automate {
            id: v.id,
            normalized_value,
            normalized_offset: v.voice_gain.unwrap(),
        }
}

/// The commands of an automation, in pool order. The pool itself stays as it is.
pub open spec fn automate_commands(
    pool: Seq<Sine>,
    poly_modulation_id: u32,
    normalized_value: u32,
) -> Seq<GainCommand> {
    pool.filter(automation_reaches(poly_modulation_id)).map_values(
        automate_command(normalized_value),
    )
}

/// What is selected from a sequence meets the condition and stands in the
/// sequence, in the same order.
pub proof fn lemma_select_keeps_order<A>(s: Seq<A>, p: spec_fn(A) -> bool)
    ensures
        s.filter(p).len() <= s.len(),
        forall|a: int| 0 <= a < s.filter(p).len() ==> p(#[trigger] s.filter(p)[a]),
        forall|a: int|
            0 <= a < s.filter(p).len() ==> exists|j: int|
                0 <= j < s.len() && #[trigger] s[j] == #[trigger] s.filter(p)[a],
        forall|a: int, b: int|
            0 <= a < b < s.filter(p).len() ==> exists|j: int, k: int|
                0 <= j < k < s.len() && #[trigger] s[j] == #[trigger] s.filter(p)[a]
                    && #[trigger] s[k] == #[trigger] s.filter(p)[b],
    decreases s.len(),
{
    reveal(Seq::filter);
    if s.len() > 0 {
        let front = s.drop_last();
        lemma_select_keeps_order(front, p);
        let picked = s.filter(p);
        let before = front.filter(p);
        assert forall|a: int| 0 <= a < picked.len() implies exists|j: int|
            0 <= j < s.len() && #[trigger] s[j] == #[trigger] picked[a] by {
            if a < before.len() {
                let j = choose|j: int| 0 <= j < front.len() && front[j] == before[a];
                assert(s[j] == picked[a]);
            } else {
                assert(s[s.len() - 1] == picked[a]);
            }
        }
        assert forall|a: int, b: int| 0 <= a < b < picked.len() implies exists|j: int, k: int|
            0 <= j < k < s.len() && #[trigger] s[j] == #[trigger] picked[a] && #[trigger] s[k]
                == #[trigger] picked[b] by {
            if b < before.len() {
                let (j, k) = choose|j: int, k: int|
                    0 <= j < k < front.len() && front[j] == before[a] && front[k] == before[b];
                assert(s[j] == picked[a] && s[k] == picked[b]);
            } else {
                let j = choose|j: int| 0 <= j < front.len() && front[j] == before[a];
                assert(s[j] == picked[a] && s[s.len() - 1] == picked[b]);
            }
        }
    }
}

/// Two selections of which each element meets exactly one share the sequence
/// between them.
pub proof fn lemma_select_splits<A>(s: Seq<A>, p: spec_fn(A) -> bool, q: spec_fn(A) -> bool)
    requires
        forall|x: A| #[trigger] q(x) == !p(x),
    ensures
        s.filter(p).len() + s.filter(q).len() == s.len(),
    decreases s.len(),
{
    reveal(Seq::filter);
    if s.len() > 0 {
        lemma_select_splits(s.drop_last(), p, q);
    }
}

/// A selection that no element meets is empty.
pub proof fn lemma_select_none<A>(s: Seq<A>, p: spec_fn(A) -> bool)
    requires
        forall|i: int| 0 <= i < s.len() ==> !p(#[trigger] s[i]),
    ensures
        s.filter(p) == Seq::<A>::empty(),
    decreases s.len(),
{
    reveal(Seq::filter);
    if s.len() > 0 {
        lemma_select_none(s.drop_last(), p);
    }
}

/// Changing one element of a sequence changes the size of a selection by one
/// at most.
pub proof fn lemma_select_after_update<A>(s: Seq<A>, k: int, x: A, p: spec_fn(A) -> bool)
    requires
        0 <= k < s.len(),
    ensures
        s.update(k, x).filter(p).len() + 1 >= s.filter(p).len(),
        s.update(k, x).filter(p).len() <= s.filter(p).len() + 1,
{
    let front = s.take(k);
    let back = s.skip(k + 1);
    assert(s =~= front + seq![s[k]] + back);
    assert(s.update(k, x) =~= front + seq![x] + back);
    Seq::filter_distributes_over_add(front + seq![s[k]], back, p);
    Seq::filter_distributes_over_add(front, seq![s[k]], p);
    Seq::filter_distributes_over_add(front + seq![x], back, p);
    Seq::filter_distributes_over_add(front, seq![x], p);
    seq![s[k]].lemma_filter_len(p);
    seq![x].lemma_filter_len(p);
}

/// Going one element further into `s`: what that adds to the selected elements
/// and to their images.
pub proof fn lemma_select_next<A, B>(s: Seq<A>, i: int, p: spec_fn(A) -> bool, f: spec_fn(A) -> B)
    requires
        0 <= i < s.len(),
    ensures
        s.take(i + 1).filter(p) == if p(s[i]) {
            s.take(i).filter(p).push(s[i])
        } else {
            s.take(i).filter(p)
        },
        s.take(i + 1).filter(p).map_values(f) == if p(s[i]) {
            s.take(i).filter(p).map_values(f).push(f(s[i]))
        } else {
            s.take(i).filter(p).map_values(f)
        },
{
    assert(s.take(i + 1) =~= s.take(i).push(s[i]));
    s.take(i).lemma_filter_push(s[i], p);
    if p(s[i]) {
        assert(s.take(i).filter(p).push(s[i]).map_values(f) =~= s.take(i).filter(p).map_values(
            f,
        ).push(f(s[i])));
    }
}

/// Where a voice answers to a note-off that names a voice id, one answers
/// first, and that is the one that the note-off marks.
pub proof fn lemma_first_answer(
    pool: Seq<Sine>,
    k: int,
    voice_id: Option<i32>,
    channel: u8,
    note: u8,
)
    requires
        0 <= k < pool.len(),
        pool[k].answers_to(voice_id, channel, note),
        voice_id is Some,
    ensures
        exists|first: int| 0 <= first <= k && release_marks(pool, first, voice_id, channel, note),
    decreases k,
{
    if exists|j: int| 0 <= j < k && (#[trigger] pool[j]).answers_to(voice_id, channel, note) {
        let j = choose|j: int|
            0 <= j < k && (#[trigger] pool[j]).answers_to(voice_id, channel, note);
        lemma_first_answer(pool, j, voice_id, channel, note);
    } else {
        assert(release_marks(pool, k, voice_id, channel, note));
    }
}

} // verus!
