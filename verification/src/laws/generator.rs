//! Which notes a plan gives, beat by beat and bar by bar.

use vstd::prelude::*;

use crate::laws::midi::lemma_meter_reads_back;
use crate::single::Single;
use crate::text::decimal;
use crate::text_to_midi::amt::AmtEvent;
use crate::text_to_midi::generator::{
    arpeggio_degree, arpeggio_events, bar_count, bar_ticks, bass_events, chance, chord,
    chord_events, config_events, density_of, drum_events, drum_note, is_live, is_plan, least,
    melody_events, mentions, note, plan_of, planned_events, Plan, TextToMidiConfig,
};
use crate::text_to_midi::midi::signature_named;
use crate::text_to_midi::rng::{drawn_count, drawn_index, drawn_offset, drawn_word, seeded};
use crate::text_to_midi::timing::grid_of;
use crate::text_to_midi::{file_signature, file_tempo};
use crate::text_to_midi::words::{
    first_instrument, first_style, key_of, meter_of, tempo_of, words_of, Style,
};

verus! {

/// The beat starts within the sequence.
pub open spec fn has_beat(plan: Plan, step: int) -> bool {
    0 <= step < plan.grid.steps && step * plan.grid.step < plan.grid.length
}

/// A note on a beat: `beats` beats long, as far as a duration goes, and of the degree of
/// the scale in the octave of the instrument.
pub open spec fn is_on_beat(plan: Plan, step: int, beats: int, degree: int, event: AmtEvent) -> bool {
    &&& event.time == step * plan.grid.step
    &&& event.duration == (if beats * plan.grid.step <= 999 {
        beats * plan.grid.step
    } else {
        999
    })
    &&& event.note_id == 128 * plan.instrument.program + plan.scale.pitch_of(
        degree,
        plan.instrument.base_octave as int,
    )
}

proof fn lemma_small(plan: Plan, step: int)
    requires
        is_plan(plan),
        has_beat(plan, step),
    ensures
        0 <= step * plan.grid.step < 9_999,
        step < 9_999,
{
    assert(0 <= step * plan.grid.step) by (nonlinear_arith)
        requires
            0 <= step,
            0 <= plan.grid.step,
    ;
}

/// The beat before one of the sequence is in the sequence.
proof fn lemma_beat_before(plan: Plan, step: int)
    requires
        has_beat(plan, step),
        step > 0,
    ensures
        has_beat(plan, step - 1),
{
    assert((step - 1) * plan.grid.step <= step * plan.grid.step) by (nonlinear_arith)
        requires
            0 <= plan.grid.step,
    ;
}

proof fn lemma_beats_before(plan: Plan, early: int, step: int)
    requires
        has_beat(plan, step),
        0 <= early <= step,
    ensures
        has_beat(plan, early),
    decreases step - early,
{
    if early < step {
        lemma_beat_before(plan, step);
        lemma_beats_before(plan, early, step - 1);
    }
}

/// The drum kit plays on every beat of the sequence and on nothing else: the kick on the first
/// of four beats, the snare on the third and the hi-hat on the others, each a quarter of a
/// beat long.
pub proof fn lemma_drum_beats(plan: Plan, state: Seq<u32>, step: int)
    requires
        is_plan(plan),
        plan.style == Style::Drums,
        step >= 0,
    ensures
        has_beat(plan, step) <==> step < planned_events(plan, state).len(),
        has_beat(plan, step) ==> {
            let event = planned_events(plan, state)[step];
            &&& event.time == step * plan.grid.step
            &&& event.note_id == 128 * 128 + (if step % 4 == 0 {
                36int
            } else if step % 4 == 2 {
                38
            } else {
                42
            })
            &&& event.duration == (if plan.grid.step < 4 {
                1
            } else {
                plan.grid.step as int / 4
            })
        },
{
    lemma_drums_from(plan, 0, step);
    if has_beat(plan, step) {
        lemma_small(plan, step);
    }
}

proof fn lemma_drums_from(plan: Plan, from: int, step: int)
    requires
        0 <= from <= step,
    ensures
        has_beat(plan, step) <==> step - from < drum_events(plan, from).len(),
        has_beat(plan, step) ==> drum_events(plan, from)[step - from] == drum_note(plan, step),
    decreases step - from,
{
    if has_beat(plan, step) {
        lemma_beats_before(plan, from, step);
    }
    assert(is_live(plan.grid, from) == has_beat(plan, from));
    if from < step {
        lemma_drums_from(plan, from + 1, step);
        if has_beat(plan, from) {
            let rest = drum_events(plan, from + 1);
            if has_beat(plan, step) {
                assert(drum_events(plan, from)[step - from] == rest[step - from - 1]);
            }
        }
    }
}

/// An arpeggio plays on every beat of the sequence and on nothing else, each note two beats
/// long: the root, the third and the fifth, and then the root again, which is the eighth.
pub proof fn lemma_arpeggio_beats(plan: Plan, state: Seq<u32>, step: int)
    requires
        is_plan(plan),
        plan.style == Style::Arpeggio,
        step >= 0,
    ensures
        has_beat(plan, step) <==> step < planned_events(plan, state).len(),
        has_beat(plan, step) ==> is_on_beat(
            plan,
            step,
            2,
            if step % 4 == 0 {
                0
            } else if step % 4 == 1 {
                2
            } else if step % 4 == 2 {
                4
            } else {
                7
            },
            planned_events(plan, state)[step],
        ),
{
    lemma_arpeggio_from(plan, 0, step);
    if has_beat(plan, step) {
        lemma_small(plan, step);
    }
}

proof fn lemma_arpeggio_from(plan: Plan, from: int, step: int)
    requires
        0 <= from <= step,
    ensures
        has_beat(plan, step) <==> step - from < arpeggio_events(plan, from).len(),
        has_beat(plan, step) ==> arpeggio_events(plan, from)[step - from] == note(
            plan,
            step * plan.grid.step,
            least(2 * plan.grid.step, 999),
            arpeggio_degree(step),
            plan.instrument.base_octave as int,
        ),
    decreases step - from,
{
    if has_beat(plan, step) {
        lemma_beats_before(plan, from, step);
    }
    assert(is_live(plan.grid, from) == has_beat(plan, from));
    if from < step {
        lemma_arpeggio_from(plan, from + 1, step);
        if has_beat(plan, from) {
            let rest = arpeggio_events(plan, from + 1);
            if has_beat(plan, step) {
                assert(arpeggio_events(plan, from)[step - from] == rest[step - from - 1]);
            }
        }
    }
}

/// The bar is played: it starts within the sequence, and is one of the whole bars or the
/// first.
pub open spec fn has_bar(plan: Plan, bar: int) -> bool {
    &&& 0 <= bar
    &&& bar == 0 || (bar + 1) * plan.beats <= plan.grid.steps
    &&& bar * (plan.beats * plan.grid.step) < plan.grid.length
}

proof fn lemma_bar(plan: Plan, bar: int)
    requires
        is_plan(plan),
    ensures
        has_bar(plan, bar) <==> !(bar < 0 || bar >= bar_count(plan) || bar * bar_ticks(plan)
            >= plan.grid.length),
        bar_ticks(plan) == plan.beats * plan.grid.step,
        has_bar(plan, bar) ==> 0 <= bar * bar_ticks(plan) < 9_999,
        has_bar(plan, bar) && bar > 0 ==> has_bar(plan, bar - 1),
{
    let b = plan.beats as int;
    let s = plan.grid.steps as int;
    let t = plan.beats * plan.grid.step;
    assert(plan.grid.step * plan.beats == plan.beats * plan.grid.step) by (nonlinear_arith);
    assert((bar + 1) * b <= s <==> bar < s / b) by (nonlinear_arith)
        requires
            b >= 1,
            s >= 0,
    ;
    assert(bar >= 0 ==> 0 <= bar * t) by (nonlinear_arith)
        requires
            t >= 0,
    ;
    assert(t >= 0) by (nonlinear_arith)
        requires
            t == plan.beats * plan.grid.step,
    ;
    assert((bar - 1) * t <= bar * t) by (nonlinear_arith)
        requires
            t >= 0,
    ;
    assert((bar - 1 + 1) * b <= (bar + 1) * b) by (nonlinear_arith)
        requires
            b >= 1,
    ;
    assert((0 + 1) * b == b) by (nonlinear_arith);
}

/// Chords sound in every bar of the sequence and nowhere else: the root, the third and the
/// fifth together, at the start of the bar and as long as it, as far as a duration goes.
pub proof fn lemma_chord_bars(plan: Plan, state: Seq<u32>, bar: int)
    requires
        is_plan(plan),
        plan.style == Style::Chords,
        bar >= 0,
    ensures
        has_bar(plan, bar) <==> 3 * bar < planned_events(plan, state).len(),
        has_bar(plan, bar) ==> 3 * bar + 2 < planned_events(plan, state).len(),
        has_bar(plan, bar) ==> forall|k: int|
            0 <= k < 3 ==> {
                let event = #[trigger] planned_events(plan, state)[3 * bar + k];
                &&& event.time == bar * (plan.beats * plan.grid.step)
                &&& event.duration == (if plan.beats * plan.grid.step <= 999 {
                    plan.beats * plan.grid.step
                } else {
                    999
                })
                &&& event.note_id == 128 * plan.instrument.program + plan.scale.pitch_of(
                    2 * k,
                    plan.instrument.base_octave as int,
                )
            },
{
    lemma_chords_from(plan, 0, bar);
    lemma_bar(plan, bar);
    if has_bar(plan, bar) {
        let events = planned_events(plan, state);
        assert forall|k: int| 0 <= k < 3 implies {
            let event = #[trigger] events[3 * bar + k];
            &&& event.time == bar * (plan.beats * plan.grid.step)
            &&& event.duration == (if plan.beats * plan.grid.step <= 999 {
                plan.beats * plan.grid.step
            } else {
                999
            })
            &&& event.note_id == 128 * plan.instrument.program + plan.scale.pitch_of(
                2 * k,
                plan.instrument.base_octave as int,
            )
        } by {
            assert(events[3 * bar + k] == chord(plan, bar)[k]);
            assert(plan.beats * plan.grid.step >= 1) by (nonlinear_arith)
                requires
                    plan.beats >= 1,
                    plan.grid.step >= 1,
            ;
        }
    }
}

proof fn lemma_chords_from(plan: Plan, from: int, bar: int)
    requires
        is_plan(plan),
        0 <= from <= bar,
    ensures
        has_bar(plan, bar) <==> 3 * (bar - from) < chord_events(plan, from).len(),
        has_bar(plan, bar) ==> 3 * (bar - from) + 2 < chord_events(plan, from).len(),
        has_bar(plan, bar) ==> forall|k: int|
            0 <= k < 3 ==> #[trigger] chord_events(plan, from)[3 * (bar - from) + k] == chord(
                plan,
                bar,
            )[k],
    decreases bar - from,
{
    lemma_bar(plan, from);
    lemma_bar(plan, bar);
    if has_bar(plan, bar) {
        lemma_bars_before(plan, from, bar);
    }
    let all = chord_events(plan, from);
    if from < bar {
        lemma_chords_from(plan, from + 1, bar);
        let rest = chord_events(plan, from + 1);
        if has_bar(plan, from) {
            assert(all.len() == 3 + rest.len());
            if has_bar(plan, bar) {
                assert forall|k: int| 0 <= k < 3 implies #[trigger] all[3 * (bar - from) + k]
                    == chord(plan, bar)[k] by {
                    assert(all[3 * (bar - from) + k] == rest[3 * (bar - from - 1) + k]);
                }
            }
        }
    } else if has_bar(plan, bar) {
        assert forall|k: int| 0 <= k < 3 implies #[trigger] all[3 * (bar - from) + k] == chord(
            plan,
            bar,
        )[k] by {}
    }
}

proof fn lemma_bars_before(plan: Plan, early: int, bar: int)
    requires
        is_plan(plan),
        has_bar(plan, bar),
        0 <= early <= bar,
    ensures
        has_bar(plan, early),
    decreases bar - early,
{
    if early < bar {
        lemma_bar(plan, bar);
        lemma_bars_before(plan, early, bar - 1);
    }
}

/// A bass line has the root, two beats long, on the first beat of every bar that is in the
/// sequence, whatever is drawn.
pub proof fn lemma_bass_downbeats(plan: Plan, state: Seq<u32>, step: int)
    requires
        is_plan(plan),
        plan.style == Style::Bassline,
        has_beat(plan, step),
        step % (plan.beats as int) == 0,
    ensures
        exists|i: int|
            0 <= i < planned_events(plan, state).len() && is_on_beat(
                plan,
                step,
                2,
                0,
                #[trigger] planned_events(plan, state)[i],
            ),
{
    lemma_small(plan, step);
    lemma_bass_root(plan, 0, state, step);
    let all = planned_events(plan, state);
    let root = note(
        plan,
        step * plan.grid.step,
        least(2 * plan.grid.step, 999),
        0,
        plan.instrument.base_octave as int,
    );
    let i = choose|i: int| 0 <= i < all.len() && all[i] == root;
    assert(is_on_beat(plan, step, 2, 0, all[i]));
}

proof fn lemma_bass_root(plan: Plan, from: int, state: Seq<u32>, step: int)
    requires
        0 <= from <= step,
        has_beat(plan, step),
        step % (plan.beats as int) == 0,
    ensures
        bass_events(plan, from, state).contains(
            note(
                plan,
                step * plan.grid.step,
                least(2 * plan.grid.step, 999),
                0,
                plan.instrument.base_octave as int,
            ),
        ),
    decreases step - from,
{
    lemma_beats_before(plan, from, step);
    let root = note(
        plan,
        step * plan.grid.step,
        least(2 * plan.grid.step, 999),
        0,
        plan.instrument.base_octave as int,
    );
    let all = bass_events(plan, from, state);
    assert(is_live(plan.grid, from));
    if from == step {
        assert(all[0] == root);
    } else {
        let next = if from % (plan.beats as int) == 0 {
            state
        } else {
            let (word, rolled) = drawn_word(state);
            if chance(word) < 4_194_304 {
                drawn_index(rolled, 7).1
            } else {
                rolled
            }
        };
        lemma_bass_root(plan, from + 1, next, step);
        let rest = bass_events(plan, from + 1, next);
        let k = choose|k: int| 0 <= k < rest.len() && rest[k] == root;
        if all.len() == rest.len() {
            assert(all == rest);
        } else {
            assert(all[k + 1] == rest[k]);
        }
    }
}

/// A note of a bass line: on the first beat of a bar the root, two beats long, and on any
/// other beat the degree, a beat long.
pub open spec fn is_in_bass(plan: Plan, event: AmtEvent, step: int, degree: int) -> bool {
    &&& has_beat(plan, step)
    &&& step % (plan.beats as int) == 0 ==> is_on_beat(plan, step, 2, 0, event)
    &&& step % (plan.beats as int) != 0 ==> is_on_beat(plan, step, 1, degree, event)
}

/// The root on the first beat of a bar, two beats long.
pub open spec fn is_root(plan: Plan, event: AmtEvent) -> bool {
    exists|step: int|
        step % (plan.beats as int) == 0 && #[trigger] is_on_beat(plan, step, 2, 0, event)
}

/// Every note of a bass line is on a beat of the sequence: on the first one of a bar the root,
/// two beats long, and on any other one the degree that is drawn, out of seven, a beat long;
/// there is one note on a beat at most.
pub proof fn lemma_bass_notes(plan: Plan, state: Seq<u32>, i: int)
    requires
        is_plan(plan),
        plan.style == Style::Bassline,
        0 <= i < planned_events(plan, state).len(),
    ensures
        exists|step: int, s: Seq<u32>|
            #![trigger has_beat(plan, step), drawn_index(s, 7)]
            is_in_bass(
                plan,
                planned_events(plan, state)[i],
                step,
                drawn_index(s, 7).0 as int,
            ),
        i > 0 ==> planned_events(plan, state)[i - 1].time < planned_events(plan, state)[i].time,
{
    lemma_bass_from(plan, 0, state, i);
    if i > 0 {
        lemma_bass_from(plan, 0, state, i - 1);
    }
    let step = choose|step: int| #[trigger] is_bass_note(plan, 0, state, i, step);
    let event = planned_events(plan, state)[i];
    lemma_small(plan, step);
    if step % (plan.beats as int) == 0 {
        assert(is_in_bass(plan, event, step, drawn_index(state, 7).0 as int));
    } else {
        let s = choose|s: Seq<u32>|
            event == note(
                plan,
                step * plan.grid.step,
                least(plan.grid.step as int, 999),
                (#[trigger] drawn_index(s, 7)).0 as int,
                plan.instrument.base_octave as int,
            );
        assert(is_in_bass(plan, event, step, drawn_index(s, 7).0 as int));
    }
}

spec fn is_bass_note(plan: Plan, from: int, state: Seq<u32>, i: int, step: int) -> bool {
    let all = bass_events(plan, from, state);
    let octave = plan.instrument.base_octave as int;
    &&& from + i <= step
    &&& has_beat(plan, step)
    &&& all[i].time == step * plan.grid.step
    &&& if step % (plan.beats as int) == 0 {
        all[i] == note(plan, step * plan.grid.step, least(2 * plan.grid.step, 999), 0, octave)
    } else {
        exists|s: Seq<u32>|
            all[i] == note(
                plan,
                step * plan.grid.step,
                least(plan.grid.step as int, 999),
                (#[trigger] drawn_index(s, 7)).0 as int,
                octave,
            )
    }
}

proof fn lemma_bass_from(plan: Plan, from: int, state: Seq<u32>, i: int)
    requires
        is_plan(plan),
        0 <= from,
        0 <= i < bass_events(plan, from, state).len(),
    ensures
        exists|step: int| #[trigger] is_bass_note(plan, from, state, i, step),
        bass_events(plan, from, state)[i].time >= from * plan.grid.step,
        i > 0 ==> bass_events(plan, from, state)[i - 1].time < bass_events(plan, from, state)[i].time,
    decreases plan.grid.steps - from,
{
    let all = bass_events(plan, from, state);
    let octave = plan.instrument.base_octave as int;
    let beat = plan.grid.step as int;
    assert(is_live(plan.grid, from));
    assert(has_beat(plan, from));
    lemma_small(plan, from);
    assert((from + 1) * beat == from * beat + beat) by (nonlinear_arith);
    let down = from % (plan.beats as int) == 0;
    let (word, rolled) = drawn_word(state);
    let plays = down || chance(word) < 4_194_304;
    let (degree, after) = drawn_index(rolled, 7);
    let next = if down {
        state
    } else if plays {
        after
    } else {
        rolled
    };
    let rest = bass_events(plan, from + 1, next);
    if plays {
        assert(all.len() == rest.len() + 1);
        if i == 0 {
            if !down {
                assert(all[0] == note(
                    plan,
                    from * beat,
                    least(beat, 999),
                    drawn_index(rolled, 7).0 as int,
                    octave,
                ));
            }
            assert(is_bass_note(plan, from, state, i, from));
        } else {
            lemma_bass_from(plan, from + 1, next, i - 1);
            let step = choose|step: int| #[trigger] is_bass_note(plan, from + 1, next, i - 1, step);
            assert(all[i] == rest[i - 1]);
            assert(is_bass_note(plan, from, state, i, step));
            if i > 1 {
                assert(all[i - 1] == rest[i - 2]);
            }
        }
    } else {
        assert(all == rest);
        lemma_bass_from(plan, from + 1, next, i);
        let step = choose|step: int| #[trigger] is_bass_note(plan, from + 1, next, i, step);
        assert(is_bass_note(plan, from, state, i, step));
    }
}

/// Where chance is never below a quarter, a bass line has nothing but roots; where it always
/// is, it has a note on every beat.
pub proof fn lemma_bass_chances(plan: Plan, state: Seq<u32>, step: int)
    requires
        is_plan(plan),
        plan.style == Style::Bassline,
    ensures
        (forall|s: Seq<u32>| (#[trigger] drawn_word(s)).0 >= 0x4000_0000) ==> forall|i: int|
            0 <= i < planned_events(plan, state).len() ==> is_root(
                plan,
                #[trigger] planned_events(plan, state)[i],
            ),
        (forall|s: Seq<u32>| (#[trigger] drawn_word(s)).0 < 0x4000_0000) && has_beat(plan, step)
            ==> exists|i: int|
            0 <= i < planned_events(plan, state).len() && (#[trigger] planned_events(
                plan,
                state,
            )[i]).time == step * plan.grid.step,
{
    let all = planned_events(plan, state);
    if forall|s: Seq<u32>| (#[trigger] drawn_word(s)).0 >= 0x4000_0000 {
        assert forall|i: int| 0 <= i < all.len() implies is_root(plan, #[trigger] all[i]) by {
            lemma_bass_rarely(plan, 0, state, i);
            lemma_bass_from(plan, 0, state, i);
            let at = choose|at: int|
                at % (plan.beats as int) == 0 && #[trigger] is_bass_note(plan, 0, state, i, at);
            lemma_small(plan, at);
            assert(is_on_beat(plan, at, 2, 0, all[i]));
        }
    }
    if (forall|s: Seq<u32>| (#[trigger] drawn_word(s)).0 < 0x4000_0000) && has_beat(plan, step) {
        lemma_bass_always(plan, 0, state, step);
        lemma_small(plan, step);
    }
}

proof fn lemma_bass_rarely(plan: Plan, from: int, state: Seq<u32>, i: int)
    requires
        is_plan(plan),
        0 <= from,
        0 <= i < bass_events(plan, from, state).len(),
        forall|s: Seq<u32>| (#[trigger] drawn_word(s)).0 >= 0x4000_0000,
    ensures
        exists|at: int|
            at % (plan.beats as int) == 0 && #[trigger] is_bass_note(plan, from, state, i, at),
    decreases plan.grid.steps - from,
{
    let all = bass_events(plan, from, state);
    assert(is_live(plan.grid, from));
    assert(has_beat(plan, from));
    lemma_small(plan, from);
    let (word, rolled) = drawn_word(state);
    assert(chance(word) >= 4_194_304);
    if from % (plan.beats as int) == 0 {
        let rest = bass_events(plan, from + 1, state);
        if i == 0 {
            assert(is_bass_note(plan, from, state, i, from));
        } else {
            lemma_bass_rarely(plan, from + 1, state, i - 1);
            let at = choose|at: int|
                at % (plan.beats as int) == 0 && #[trigger] is_bass_note(
                    plan,
                    from + 1,
                    state,
                    i - 1,
                    at,
                );
            assert(all[i] == rest[i - 1]);
            assert(is_bass_note(plan, from, state, i, at));
        }
    } else {
        lemma_bass_rarely(plan, from + 1, rolled, i);
        let at = choose|at: int|
            at % (plan.beats as int) == 0 && #[trigger] is_bass_note(plan, from + 1, rolled, i, at);
        assert(is_bass_note(plan, from, state, i, at));
    }
}

proof fn lemma_bass_always(plan: Plan, from: int, state: Seq<u32>, step: int)
    requires
        is_plan(plan),
        0 <= from <= step,
        has_beat(plan, step),
        forall|s: Seq<u32>| (#[trigger] drawn_word(s)).0 < 0x4000_0000,
    ensures
        step - from < bass_events(plan, from, state).len(),
        bass_events(plan, from, state)[step - from].time == step * plan.grid.step,
    decreases step - from,
{
    lemma_beats_before(plan, from, step);
    lemma_small(plan, step);
    assert(is_live(plan.grid, from));
    let (word, rolled) = drawn_word(state);
    assert(chance(word) < 4_194_304);
    let next = if from % (plan.beats as int) == 0 {
        state
    } else {
        drawn_index(rolled, 7).1
    };
    if from < step {
        lemma_bass_always(plan, from + 1, next, step);
        assert(bass_events(plan, from, state)[step - from] == bass_events(
            plan,
            from + 1,
            next,
        )[step - from - 1]);
    }
}

/// The melody goes on where chance is not above the density: where it never is, there is a
/// note on every beat of the sequence, and where it always is, there is none.
pub proof fn lemma_melody_chances(plan: Plan, state: Seq<u32>, step: int)
    requires
        is_plan(plan),
        plan.style == Style::Melody || plan.style == Style::Random,
    ensures
        (forall|s: Seq<u32>| (#[trigger] drawn_word(s)).0 / 256 > plan.density) ==> planned_events(
            plan,
            state,
        ).len() == 0,
        (forall|s: Seq<u32>| (#[trigger] drawn_word(s)).0 / 256 <= plan.density) && has_beat(
            plan,
            step,
        ) ==> step < planned_events(plan, state).len() && planned_events(plan, state)[step].time
            == step * plan.grid.step,
{
    if forall|s: Seq<u32>| (#[trigger] drawn_word(s)).0 / 256 > plan.density {
        lemma_melody_never(plan, 0, state);
    }
    if (forall|s: Seq<u32>| (#[trigger] drawn_word(s)).0 / 256 <= plan.density) && has_beat(
        plan,
        step,
    ) {
        lemma_melody_always(plan, 0, state, step);
    }
}

proof fn lemma_melody_never(plan: Plan, from: int, state: Seq<u32>)
    requires
        forall|s: Seq<u32>| (#[trigger] drawn_word(s)).0 / 256 > plan.density,
    ensures
        melody_events(plan, from, state).len() == 0,
    decreases plan.grid.steps - from,
{
    let (word, rolled) = drawn_word(state);
    assert(word / 256 > plan.density);
    if is_live(plan.grid, from) {
        lemma_melody_never(plan, from + 1, rolled);
    }
}

proof fn lemma_melody_always(plan: Plan, from: int, state: Seq<u32>, step: int)
    requires
        is_plan(plan),
        0 <= from <= step,
        has_beat(plan, step),
        forall|s: Seq<u32>| (#[trigger] drawn_word(s)).0 / 256 <= plan.density,
    ensures
        step - from < melody_events(plan, from, state).len(),
        melody_events(plan, from, state)[step - from].time == step * plan.grid.step,
    decreases step - from,
{
    lemma_beats_before(plan, from, step);
    lemma_small(plan, step);
    assert(is_live(plan.grid, from));
    let (word, rolled) = drawn_word(state);
    assert(word / 256 <= plan.density);
    let second = drawn_index(rolled, 7).1;
    let third = drawn_offset(second, 2).1;
    let after = drawn_count(third, 1, 3).1;
    if from < step {
        lemma_melody_always(plan, from + 1, after, step);
        assert(melody_events(plan, from, state)[step - from] == melody_events(
            plan,
            from + 1,
            after,
        )[step - from - 1]);
    }
}

/// What was drawn for a note of a melody: its degree, its octave and its length.
pub open spec fn is_melody_note(
    plan: Plan,
    event: AmtEvent,
    step: int,
    degree: int,
    raise: int,
    beats: int,
) -> bool {
    &&& has_beat(plan, step)
    &&& event.time as int == (step * plan.grid.step) as u32
    &&& event.duration as int == (if plan.grid.step * beats <= 999 {
        (plan.grid.step * beats) as u32
    } else {
        999
    })
    &&& event.note_id as int == (plan.instrument.program * 128 + plan.scale.pitch_of(
        degree,
        plan.instrument.base_octave + raise,
    )) as u32
}

/// Every note of a melody is on a beat of the sequence, one at most on each, with a degree out
/// of seven, an octave out of two and a length from one to three beats as they are drawn.
pub proof fn lemma_melody_notes(plan: Plan, state: Seq<u32>, i: int)
    requires
        is_plan(plan),
        plan.style == Style::Melody || plan.style == Style::Random,
        0 <= i < planned_events(plan, state).len(),
    ensures
        exists|step: int, s: Seq<u32>, t: Seq<u32>, u: Seq<u32>|
            #![trigger drawn_index(s, 7), drawn_offset(t, 2), drawn_count(u, 1, 3), has_beat(plan, step)]
            is_melody_note(
                plan,
                planned_events(plan, state)[i],
                step,
                drawn_index(s, 7).0 as int,
                drawn_offset(t, 2).0 as int,
                drawn_count(u, 1, 3).0 as int,
            ),
        i > 0 ==> planned_events(plan, state)[i - 1].time < planned_events(plan, state)[i].time,
{
    lemma_melody_from(plan, 0, state, i);
}

proof fn lemma_melody_from(plan: Plan, from: int, state: Seq<u32>, i: int)
    requires
        is_plan(plan),
        0 <= from,
        0 <= i < melody_events(plan, from, state).len(),
    ensures
        exists|step: int, s: Seq<u32>, t: Seq<u32>, u: Seq<u32>|
            #![trigger drawn_index(s, 7), drawn_offset(t, 2), drawn_count(u, 1, 3), has_beat(plan, step)]
            is_melody_note(
                plan,
                melody_events(plan, from, state)[i],
                step,
                drawn_index(s, 7).0 as int,
                drawn_offset(t, 2).0 as int,
                drawn_count(u, 1, 3).0 as int,
            ),
        melody_events(plan, from, state)[i].time >= from * plan.grid.step,
        i > 0 ==> melody_events(plan, from, state)[i - 1].time < melody_events(
            plan,
            from,
            state,
        )[i].time,
    decreases plan.grid.steps - from,
{
    let all = melody_events(plan, from, state);
    let beat = plan.grid.step as int;
    assert(is_live(plan.grid, from));
    assert(has_beat(plan, from));
    lemma_small(plan, from);
    assert((from + 1) * beat == from * beat + beat) by (nonlinear_arith);
    let (word, rolled) = drawn_word(state);
    if chance(word) > plan.density {
        lemma_melody_from(plan, from + 1, rolled, i);
    } else {
        let (degree, second) = drawn_index(rolled, 7);
        let (raise, third) = drawn_offset(second, 2);
        let (beats, after) = drawn_count(third, 1, 3);
        let rest = melody_events(plan, from + 1, after);
        if i == 0 {
            assert(is_melody_note(
                plan,
                all[0],
                from,
                drawn_index(rolled, 7).0 as int,
                drawn_offset(second, 2).0 as int,
                drawn_count(third, 1, 3).0 as int,
            ));
        } else {
            lemma_melody_from(plan, from + 1, after, i - 1);
            assert(all[i] == rest[i - 1]);
            if i > 1 {
                assert(all[i - 1] == rest[i - 2]);
            }
        }
    }
}

/// The words of a prompt decide how dense a melody is: seven tenths for a dense, busy or fast
/// one, a quarter for a sparse or minimal one that is none of these, and forty-five
/// hundredths otherwise, out of two to the power 24.
pub proof fn lemma_density(words: Seq<Seq<char>>)
    ensures
        ({
            let dense = words.contains("dense"@) || words.contains("busy"@) || words.contains(
                "fast"@,
            );
            let sparse = words.contains("sparse"@) || words.contains("minimal"@);
            &&& dense ==> density_of(words) == 11_744_051
            &&& !dense && sparse ==> density_of(words) == 4_194_304
            &&& !dense && !sparse ==> density_of(words) == 7_549_747
        }),
{
    lemma_mentions(words, "dense"@, "busy"@, "fast"@);
    lemma_mentions(words, "sparse"@, "minimal"@, "minimal"@);
}

proof fn lemma_mentions(words: Seq<Seq<char>>, a: Seq<char>, b: Seq<char>, c: Seq<char>)
    ensures
        mentions(words, a, b, c) <==> words.contains(a) || words.contains(b) || words.contains(c),
{
    if mentions(words, a, b, c) {
        let i = choose|i: int|
            0 <= i < words.len() && (#[trigger] words[i] == a || words[i] == b || words[i] == c);
        assert(words.contains(words[i]));
    }
    if words.contains(a) {
        let i = choose|i: int| 0 <= i < words.len() && words[i] == a;
        assert(words[i] == a);
    }
    if words.contains(b) {
        let i = choose|i: int| 0 <= i < words.len() && words[i] == b;
        assert(words[i] == b);
    }
    if words.contains(c) {
        let i = choose|i: int| 0 <= i < words.len() && words[i] == c;
        assert(words[i] == c);
    }
}

/// The bars of a plan have as many beats as the numerator of the time signature says, and its
/// beats are as long as the denominator makes them.
pub proof fn lemma_plan_meter(
    prompt: Seq<char>,
    bpm: Option<Single>,
    key: Option<Seq<char>>,
    upper: nat,
    lower: nat,
    seconds: Single,
)
    requires
        1 <= upper <= 255,
        1 <= lower <= 255,
    ensures
        ({
            let plan = plan_of(
                prompt,
                bpm,
                key,
                Some(decimal(upper) + seq!['/'] + decimal(lower)),
                seconds,
            );
            &&& plan.beats == upper
            &&& plan.grid == grid_of(tempo_of(words_of(prompt), bpm), lower as u8, seconds)
        }),
{
    let none = Seq::<char>::empty();
    lemma_meter_reads_back(none, upper, none, none, lower, none);
    assert(none + decimal(upper) + none =~= decimal(upper));
    assert(none + decimal(lower) + none =~= decimal(lower));
}

/// A plan follows its request: the meter that is given or hinted at, or four quarters; the
/// key, the instrument and the style; and drums wherever the instrument is the drum kit.
pub proof fn lemma_plan_parts(
    prompt: Seq<char>,
    bpm: Option<Single>,
    key: Option<Seq<char>>,
    meter: Option<Seq<char>>,
    seconds: Single,
)
    ensures
        ({
            let plan = plan_of(prompt, bpm, key, meter, seconds);
            let signature = meter_of(prompt, meter);
            let words = words_of(prompt);
            &&& signature matches Some(given) ==> plan.beats == given.numerator && plan.grid
                == grid_of(tempo_of(words, bpm), given.denominator, seconds)
            &&& signature is None ==> plan.beats == 4 && plan.grid == grid_of(
                tempo_of(words, bpm),
                4,
                seconds,
            )
            &&& plan.scale == key_of(prompt, key)
            &&& plan.instrument == first_instrument(words, 0)
            &&& plan.instrument.is_drum ==> plan.style == Style::Drums
            &&& !plan.instrument.is_drum ==> plan.style == first_style(words, 0)
            &&& plan.density == density_of(words)
        }),
{
}

/// A configuration gives the events of its own plan, with its own seed.
pub proof fn lemma_config(config: TextToMidiConfig, key: Option<Seq<char>>, meter: Option<Seq<char>>)
    requires
        key is Some <==> config.key_scale is Some,
        key is Some ==> key->0 == config.key_scale->0@,
        meter is Some <==> config.time_signature is Some,
        meter is Some ==> meter->0 == config.time_signature->0@,
    ensures
        config_events(config) == planned_events(
            plan_of(config.prompt@, config.bpm, key, meter, config.length_seconds),
            seeded(config.seed),
        ),
{
}

/// A file has the tempo that is given, or else the one that its prompt states or suggests, and
/// the meter that is given or that its prompt hints at.
pub proof fn lemma_file_parts(config: TextToMidiConfig)
    ensures
        config.bpm matches Some(bpm) ==> file_tempo(config) == bpm,
        config.bpm is None ==> file_tempo(config) == tempo_of(words_of(config.prompt@), None),
        config.time_signature matches Some(text) ==> file_signature(config) == signature_named(
            text@,
        ),
        config.time_signature is None ==> file_signature(config) == meter_of(config.prompt@, None),
{
}

/// How a bass line goes on from one beat to the next: the first beat of a bar draws nothing,
/// any other one draws a chance and, where it is below a quarter, a degree after it.
pub proof fn lemma_bass_goes_on(plan: Plan, step: int, state: Seq<u32>)
    requires
        is_plan(plan),
        has_beat(plan, step),
    ensures
        ({
            let all = bass_events(plan, step, state);
            let (word, rolled) = drawn_word(state);
            let (degree, after) = drawn_index(rolled, 7);
            let down = step % (plan.beats as int) == 0;
            &&& down ==> all.len() > 0 && is_on_beat(plan, step, 2, 0, all[0]) && all.skip(1)
                == bass_events(plan, step + 1, state)
            &&& !down && word < 0x4000_0000 ==> all.len() > 0 && is_on_beat(
                plan,
                step,
                1,
                degree as int,
                all[0],
            ) && all.skip(1) == bass_events(plan, step + 1, after)
            &&& !down && word >= 0x4000_0000 ==> all == bass_events(plan, step + 1, rolled)
        }),
{
    lemma_small(plan, step);
    assert(is_live(plan.grid, step));
    let all = bass_events(plan, step, state);
    let (word, rolled) = drawn_word(state);
    let (degree, after) = drawn_index(rolled, 7);
    if step % (plan.beats as int) == 0 {
        assert(all.skip(1) =~= bass_events(plan, step + 1, state));
    } else if word < 0x4000_0000 {
        assert(chance(word) < 4_194_304);
        assert(all.skip(1) =~= bass_events(plan, step + 1, after));
    } else {
        assert(chance(word) >= 4_194_304);
    }
}

/// How a melody goes on from one beat to the next: a chance is drawn and, where it is not above
/// the density, a degree, an octave and a length after it, in this order.
pub proof fn lemma_melody_goes_on(plan: Plan, step: int, state: Seq<u32>)
    requires
        is_plan(plan),
        has_beat(plan, step),
    ensures
        ({
            let all = melody_events(plan, step, state);
            let (word, rolled) = drawn_word(state);
            let (degree, second) = drawn_index(rolled, 7);
            let (raise, third) = drawn_offset(second, 2);
            let (beats, after) = drawn_count(third, 1, 3);
            &&& word / 256 > plan.density ==> all == melody_events(plan, step + 1, rolled)
            &&& word / 256 <= plan.density ==> all.len() > 0 && is_melody_note(
                plan,
                all[0],
                step,
                degree as int,
                raise as int,
                beats as int,
            ) && all.skip(1) == melody_events(plan, step + 1, after)
        }),
{
    lemma_small(plan, step);
    assert(is_live(plan.grid, step));
    let all = melody_events(plan, step, state);
    let (word, rolled) = drawn_word(state);
    let (degree, second) = drawn_index(rolled, 7);
    let (raise, third) = drawn_offset(second, 2);
    let (beats, after) = drawn_count(third, 1, 3);
    if word / 256 <= plan.density {
        assert(all.skip(1) =~= melody_events(plan, step + 1, after));
    }
}

/// What is left to chance begins with the first draw of the seed.
pub proof fn lemma_first_draw(plan: Plan, state: Seq<u32>)
    ensures
        plan.style == Style::Bassline ==> planned_events(plan, state) == bass_events(plan, 0, state),
        plan.style == Style::Melody || plan.style == Style::Random ==> planned_events(plan, state)
            == melody_events(plan, 0, state),
        plan.grid.steps == 0 ==> bass_events(plan, 0, state).len() == 0 && melody_events(
            plan,
            0,
            state,
        ).len() == 0,
{
}

} // verus!
