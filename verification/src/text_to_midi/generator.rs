//! Prompt-driven deterministic generation of note events.
//!
//! No model is involved: the prompt is read for musical hints (tempo, key,
//! instrument, mood), and a plausible sequence of events is laid out on a grid
//! of beats.

use rand::rngs::StdRng;
use vstd::prelude::*;

use crate::single::Single;
use crate::text::{same_text, views};
use crate::text_to_midi::amt::{events_to_tokens, tokens_of, AmtEvent, MAX_DUR, MAX_NOTE};
use crate::text_to_midi::rng::{
    draw_count, draw_index, draw_offset, draw_word, drawn_count, drawn_index, drawn_offset,
    drawn_word, rng_state, seed_rng, seeded,
};
use crate::text_to_midi::timing::{beat_grid, grid_of, Grid, LONGEST};
use crate::text_to_midi::words::{
    beats_of, detect_bpm, detect_instrument, detect_key, detect_meter, detect_style,
    first_instrument, first_style, key_of, meter_of, normalize_prompt, optional_text,
    parse_time_signature, tempo_of, words_of, Instrument, Scale, Style,
};

verus! {

/// Generation parameters.
#[derive(Clone, Copy, Debug)]
pub struct TextToMidiConfig<'a> {
    pub prompt: &'a str,
    pub bpm: Option<Single>,
    pub key_scale: Option<&'a str>,
    pub time_signature: Option<&'a str>,
    pub length_seconds: Single,
    pub seed: u64,
}

/// The bits of the number ten.
pub const TEN: u32 = 0x4120_0000;

impl<'a> Default for TextToMidiConfig<'a> {
    /// Ten seconds for an empty prompt.
    fn default() -> (config: TextToMidiConfig<'a>)
        ensures
            config.prompt@ == ""@,
            config.bpm is None,
            config.key_scale is None,
            config.time_signature is None,
            config.length_seconds.bits == TEN,
            config.seed == 0,
    {
        TextToMidiConfig {
            prompt: "",
            bpm: None,
            key_scale: None,
            time_signature: None,
            length_seconds: Single { bits: TEN },
            seed: 0,
        }
    }
}

/// What a sequence is made of.
#[derive(Clone, Copy, Debug, PartialEq, Eq, Structural)]
pub struct Plan {
    pub grid: Grid,
    /// Beats per bar.
    pub beats: u8,
    pub scale: Scale,
    pub instrument: Instrument,
    pub style: Style,
    /// How many of two to the power 24 chances lead to a note.
    pub density: u32,
}

/// One of the words is `a`, `b` or `c`.
pub open spec fn mentions(words: Seq<Seq<char>>, a: Seq<char>, b: Seq<char>, c: Seq<char>) -> bool {
    exists|i: int|
        0 <= i < words.len() && (#[trigger] words[i] == a || words[i] == b || words[i] == c)
}

/// How dense a melody is, in chances out of two to the power 24: seven tenths for
/// a dense one, a quarter for a sparse one, and forty-five hundredths otherwise,
/// each as single precision has it.
pub open spec fn density_of(words: Seq<Seq<char>>) -> u32 {
    if mentions(words, "dense"@, "busy"@, "fast"@) {
        11_744_051
    } else if mentions(words, "sparse"@, "minimal"@, "minimal"@) {
        4_194_304
    } else {
        7_549_747
    }
}

/// The plan for a prompt and its settings.
pub open spec fn plan_of(
    prompt: Seq<char>,
    bpm: Option<Single>,
    key_scale: Option<Seq<char>>,
    time_signature: Option<Seq<char>>,
    length_seconds: Single,
) -> Plan {
    let words = words_of(prompt);
    let (numerator, denominator) = beats_of(meter_of(prompt, time_signature));
    let instrument = first_instrument(words, 0);
    Plan {
        grid: grid_of(tempo_of(words, bpm), denominator, length_seconds),
        beats: numerator,
        scale: key_of(prompt, key_scale),
        instrument,
        style: if instrument.is_drum {
            Style::Drums
        } else {
            first_style(words, 0)
        },
        density: density_of(words),
    }
}

/// The limits that every plan keeps.
pub open spec fn is_plan(plan: Plan) -> bool {
    &&& plan.grid.length <= LONGEST
    &&& plan.grid.steps <= plan.grid.length
    &&& 1 <= plan.grid.step <= 600
    &&& plan.beats >= 1
    &&& plan.instrument.program < 128
    &&& -2 <= plan.instrument.base_octave <= 0
}

/// The beat `step` is in the sequence.
pub open spec fn is_live(grid: Grid, step: int) -> bool {
    0 <= step < grid.steps && step * grid.step < grid.length
}

/// The smaller of two numbers.
pub open spec fn least(a: int, b: int) -> int {
    if a <= b {
        a
    } else {
        b
    }
}

/// The pitch of the drum on a beat: kick, hi-hat, snare, hi-hat.
pub open spec fn drum_pitch_of(step: int) -> int {
    if step % 4 == 0 {
        36
    } else if step % 4 == 2 {
        38
    } else {
        42
    }
}

/// The pitch of the drum on a beat.
pub fn drum_pitch(drum_step: usize) -> (pitch: u8)
    ensures
        pitch == drum_pitch_of(drum_step as int),
{
    let phase: usize = drum_step % 4;
    if phase == 0 {
        36
    } else if phase == 2 {
        38
    } else {
        42
    }
}

/// A note of the instrument of a plan on a beat.
pub open spec fn note(plan: Plan, time: int, duration: int, degree: int, octave: int) -> AmtEvent {
    AmtEvent {
        time: time as u32,
        duration: duration as u32,
        note_id: (plan.instrument.program * 128 + plan.scale.pitch_of(degree, octave)) as u32,
    }
}

/// The drum on a beat.
pub open spec fn drum_note(plan: Plan, step: int) -> AmtEvent {
    let quarter = plan.grid.step as int / 4;
    AmtEvent {
        time: (step * plan.grid.step) as u32,
        duration: (if quarter < 1 {
            1
        } else {
            quarter
        }) as u32,
        note_id: (128 * 128 + drum_pitch_of(step)) as u32,
    }
}

/// A drum on every beat from `step` on.
pub open spec fn drum_events(plan: Plan, step: int) -> Seq<AmtEvent>
    decreases plan.grid.steps - step,
{
    if !is_live(plan.grid, step) {
        Seq::empty()
    } else {
        seq![drum_note(plan, step)] + drum_events(plan, step + 1)
    }
}

/// The degree that an arpeggio plays on a beat.
pub open spec fn arpeggio_degree(step: int) -> int {
    if step % 4 == 0 {
        0
    } else if step % 4 == 1 {
        2
    } else if step % 4 == 2 {
        4
    } else {
        7
    }
}

/// A note of the chord on every beat from `step` on, each two beats long, as far
/// as a duration goes.
pub open spec fn arpeggio_events(plan: Plan, step: int) -> Seq<AmtEvent>
    decreases plan.grid.steps - step,
{
    if !is_live(plan.grid, step) {
        Seq::empty()
    } else {
        seq![
            note(
                plan,
                step * plan.grid.step,
                least(2 * plan.grid.step, 999),
                arpeggio_degree(step),
                plan.instrument.base_octave as int,
            ),
        ] + arpeggio_events(plan, step + 1)
    }
}

/// The ticks in a bar.
pub open spec fn bar_ticks(plan: Plan) -> int {
    plan.grid.step * plan.beats
}

/// How many bars are played: the whole ones, and one at least.
pub open spec fn bar_count(plan: Plan) -> int {
    let whole = plan.grid.steps as int / plan.beats as int;
    if whole < 1 {
        1
    } else {
        whole
    }
}

/// The three notes of a chord at the start of a bar.
pub open spec fn chord(plan: Plan, bar: int) -> Seq<AmtEvent> {
    let time = bar * bar_ticks(plan);
    let duration = least(bar_ticks(plan), 999);
    let octave = plan.instrument.base_octave as int;
    seq![
        note(plan, time, duration, 0, octave),
        note(plan, time, duration, 2, octave),
        note(plan, time, duration, 4, octave),
    ]
}

/// A chord in every bar from `bar` on that starts within the sequence.
pub open spec fn chord_events(plan: Plan, bar: int) -> Seq<AmtEvent>
    decreases bar_count(plan) - bar,
{
    if bar < 0 || bar >= bar_count(plan) || bar * bar_ticks(plan) >= plan.grid.length {
        Seq::empty()
    } else {
        chord(plan, bar) + chord_events(plan, bar + 1)
    }
}

/// The chances, out of two to the power 24, that a word drawn at random holds.
pub open spec fn chance(word: u32) -> int {
    word as int / 256
}

/// A bass line from `step` on, drawn from a generator in the given state: the
/// root on the first beat of every bar, two beats long, and on one in four of
/// the other beats any degree.
pub open spec fn bass_events(plan: Plan, step: int, state: Seq<u32>) -> Seq<AmtEvent>
    decreases plan.grid.steps - step,
{
    let octave = plan.instrument.base_octave as int;
    let beat = plan.grid.step as int;
    if !is_live(plan.grid, step) {
        Seq::empty()
    } else if step % plan.beats as int == 0 {
        seq![note(plan, step * beat, least(2 * beat, 999), 0, octave)] + bass_events(
            plan,
            step + 1,
            state,
        )
    } else {
        let (word, rolled) = drawn_word(state);
        if chance(word) < 4_194_304 {
            let (degree, after) = drawn_index(rolled, 7);
            seq![note(plan, step * beat, least(beat, 999), degree as int, octave)] + bass_events(
                plan,
                step + 1,
                after,
            )
        } else {
            bass_events(plan, step + 1, rolled)
        }
    }
}

/// A melody from `step` on, drawn from a generator in the given state: on a beat,
/// as often as the plan is dense, any degree in one of two octaves, from one to
/// three beats long.
pub open spec fn melody_events(plan: Plan, step: int, state: Seq<u32>) -> Seq<AmtEvent>
    decreases plan.grid.steps - step,
{
    let beat = plan.grid.step as int;
    if !is_live(plan.grid, step) {
        Seq::empty()
    } else {
        let (word, rolled) = drawn_word(state);
        if chance(word) > plan.density {
            melody_events(plan, step + 1, rolled)
        } else {
            let (degree, second) = drawn_index(rolled, 7);
            let (raise, third) = drawn_offset(second, 2);
            let (beats, after) = drawn_count(third, 1, 3);
            seq![
                note(
                    plan,
                    step * beat,
                    least(beat * beats, 999),
                    degree as int,
                    plan.instrument.base_octave + raise,
                ),
            ] + melody_events(plan, step + 1, after)
        }
    }
}

/// The events of a plan, with a generator in the given state.
pub open spec fn planned_events(plan: Plan, state: Seq<u32>) -> Seq<AmtEvent> {
    match plan.style {
        Style::Drums => drum_events(plan, 0),
        Style::Arpeggio => arpeggio_events(plan, 0),
        Style::Chords => chord_events(plan, 0),
        Style::Bassline => bass_events(plan, 0, state),
        Style::Melody => melody_events(plan, 0, state),
        Style::Random => melody_events(plan, 0, state),
    }
}

/// The events that a configuration gives.
pub open spec fn config_events(config: TextToMidiConfig) -> Seq<AmtEvent> {
    planned_events(
        plan_of(
            config.prompt@,
            config.bpm,
            optional_text(config.key_scale),
            optional_text(config.time_signature),
            config.length_seconds,
        ),
        seeded(config.seed),
    )
}

/// Whether one of the words is `a`, `b` or `c`.
fn any_word(words: &Vec<String>, a: &str, b: &str, c: &str) -> (found: bool)
    ensures
        found == mentions(views(words@), a@, b@, c@),
{
    let ghost all = views(words@);
    let mut i: usize = 0;
    while i < words.len()
        invariant
            i <= words@.len(),
            all == views(words@),
            all.len() == words@.len(),
            forall|k: int| 0 <= k < i ==> #[trigger] all[k] != a@ && all[k] != b@ && all[k] != c@,
        decreases words@.len() - i,
    {
        assert(all[i as int] == words@[i as int]@);
        let word = words[i].as_str();
        if same_text(word, a) || same_text(word, b) || same_text(word, c) {
            return true;
        }
        i += 1;
    }
    false
}

/// Reads a configuration for the plan of a sequence.
pub fn make_plan(config: &TextToMidiConfig) -> (plan: Plan)
    ensures
        plan == plan_of(
            config.prompt@,
            config.bpm,
            optional_text(config.key_scale),
            optional_text(config.time_signature),
            config.length_seconds,
        ),
        is_plan(plan),
{
    let words = normalize_prompt(config.prompt);
    let bpm = detect_bpm(&words, config.bpm);
    let scale = detect_key(config.prompt, config.key_scale);
    let meter = detect_meter(config.prompt, config.time_signature);
    let (numerator, denominator): (u8, u8) = match meter {
        Some(signature) => (signature.numerator, signature.denominator),
        None => parse_time_signature(None),
    };
    let grid = beat_grid(bpm, denominator, config.length_seconds);
    let instrument = detect_instrument(&words, Style::Random);
    let style = detect_style(&words, instrument);
    let density: u32 = if any_word(&words, "dense", "busy", "fast") {
        11_744_051
    } else if any_word(&words, "sparse", "minimal", "minimal") {
        4_194_304
    } else {
        7_549_747
    };
    proof {
        lemma_instrument_range(views(words@), 0);
    }
    Plan { grid, beats: numerator, scale, instrument, style, density }
}

/// Every instrument has a MIDI program and lies at most two octaves below the
/// scale.
proof fn lemma_instrument_range(words: Seq<Seq<char>>, at: int)
    ensures
        first_instrument(words, at).program < 128,
        -2 <= first_instrument(words, at).base_octave <= 0,
    decreases words.len() - at,
{
    if 0 <= at < words.len() {
        lemma_instrument_range(words, at + 1);
    }
}

/// Makes a note of the instrument of a plan.
fn make_note(plan: &Plan, time: u32, duration: u32, degree: usize, octave: i8) -> (event: AmtEvent)
    requires
        is_plan(*plan),
    ensures
        event == note(*plan, time as int, duration as int, degree as int, octave as int),
{
    let pitch: u8 = plan.scale.pitch(degree, octave);
    AmtEvent { time, duration, note_id: plan.instrument.program as u32 * 128 + pitch as u32 }
}

/// Whether a beat is in the sequence.
fn on_grid(grid: &Grid, step: u32) -> (answer: bool)
    requires
        grid.steps <= 9_999,
        grid.step <= 600,
        step <= grid.steps,
    ensures
        answer == is_live(*grid, step as int),
{
    assert(step * grid.step <= 9_999 * 600) by (nonlinear_arith)
        requires
            0 <= step <= 9_999,
            0 <= grid.step <= 600,
    ;
    step < grid.steps && step * grid.step < grid.length
}

/// Lays out drums.
fn lay_drums(plan: &Plan) -> (events: Vec<AmtEvent>)
    requires
        is_plan(*plan),
    ensures
        events@ == drum_events(*plan, 0),
{
    let mut events: Vec<AmtEvent> = Vec::new();
    let mut step: u32 = 0;
    assert(events@ + drum_events(*plan, 0) =~= drum_events(*plan, 0));
    while on_grid(&plan.grid, step)
        invariant
            is_plan(*plan),
            step <= plan.grid.steps,
            events@ + drum_events(*plan, step as int) == drum_events(*plan, 0),
        decreases plan.grid.steps - step,
    {
        let time: u32 = step * plan.grid.step;
        let quarter: u32 = plan.grid.step / 4;
        let duration: u32 = if quarter < 1 {
            1
        } else {
            quarter
        };
        let ghost before = events@;
        events.push(
            AmtEvent { time, duration, note_id: 128 * 128 + drum_pitch(step as usize) as u32 },
        );
        assert(events@ + drum_events(*plan, step + 1) =~= before + (seq![
            drum_note(*plan, step as int),
        ] + drum_events(*plan, step + 1)));
        step += 1;
    }
    assert(events@ + drum_events(*plan, step as int) =~= events@);
    events
}

/// Lays out an arpeggio.
fn lay_arpeggio(plan: &Plan) -> (events: Vec<AmtEvent>)
    requires
        is_plan(*plan),
    ensures
        events@ == arpeggio_events(*plan, 0),
{
    let mut events: Vec<AmtEvent> = Vec::new();
    let mut step: u32 = 0;
    assert(events@ + arpeggio_events(*plan, 0) =~= arpeggio_events(*plan, 0));
    while on_grid(&plan.grid, step)
        invariant
            is_plan(*plan),
            step <= plan.grid.steps,
            events@ + arpeggio_events(*plan, step as int) == arpeggio_events(*plan, 0),
        decreases plan.grid.steps - step,
    {
        let time: u32 = step * plan.grid.step;
        let phase: u32 = step % 4;
        let degree: usize = if phase == 0 {
            0
        } else if phase == 1 {
            2
        } else if phase == 2 {
            4
        } else {
            7
        };
        let ghost before = events@;
        let duration: u32 = if plan.grid.step * 2 <= MAX_DUR - 1 {
            plan.grid.step * 2
        } else {
            MAX_DUR - 1
        };
        let event = make_note(plan, time, duration, degree, plan.instrument.base_octave);
        events.push(event);
        assert(events@ + arpeggio_events(*plan, step + 1) =~= before + (seq![event]
            + arpeggio_events(*plan, step + 1)));
        step += 1;
    }
    assert(events@ + arpeggio_events(*plan, step as int) =~= events@);
    events
}

/// Lays out chords.
fn lay_chords(plan: &Plan) -> (events: Vec<AmtEvent>)
    requires
        is_plan(*plan),
    ensures
        events@ == chord_events(*plan, 0),
{
    let mut events: Vec<AmtEvent> = Vec::new();
    assert(plan.grid.step * plan.beats <= 600 * 255) by (nonlinear_arith)
        requires
            0 <= plan.grid.step <= 600,
            0 <= plan.beats <= 255,
    ;
    let ticks: u32 = plan.grid.step * plan.beats as u32;
    let whole: u32 = plan.grid.steps / plan.beats as u32;
    let bars: u32 = if whole < 1 {
        1
    } else {
        whole
    };
    let duration: u32 = if ticks <= MAX_DUR - 1 {
        ticks
    } else {
        MAX_DUR - 1
    };
    let octave: i8 = plan.instrument.base_octave;
    assert(bars <= 9_999) by (nonlinear_arith)
        requires
            plan.grid.steps <= 9_999,
            plan.beats >= 1,
            whole == plan.grid.steps / plan.beats as u32,
            bars == whole || bars == 1,
    ;
    let mut bar: u32 = 0;
    assert(events@ + chord_events(*plan, 0) =~= chord_events(*plan, 0));
    while bar < bars
        invariant_except_break
            is_plan(*plan),
            bar <= bars <= 9_999,
            ticks == bar_ticks(*plan),
            ticks <= 600 * 255,
            bars == bar_count(*plan),
            duration == least(ticks as int, 999),
            octave == plan.instrument.base_octave,
            events@ + chord_events(*plan, bar as int) == chord_events(*plan, 0),
        ensures
            events@ == chord_events(*plan, 0),
        decreases bars - bar,
    {
        assert(bar * ticks <= 9_999 * (600 * 255)) by (nonlinear_arith)
            requires
                0 <= bar <= 9_999,
                0 <= ticks <= 600 * 255,
        ;
        let time: u32 = bar * ticks;
        if time >= plan.grid.length {
            assert(events@ + chord_events(*plan, bar as int) =~= events@);
            break;
        }
        let ghost before = events@;
        events.push(make_note(plan, time, duration, 0, octave));
        events.push(make_note(plan, time, duration, 2, octave));
        events.push(make_note(plan, time, duration, 4, octave));
        assert(events@ =~= before + chord(*plan, bar as int));
        assert(events@ + chord_events(*plan, bar + 1) =~= before + (chord(*plan, bar as int)
            + chord_events(*plan, bar + 1)));
        bar += 1;
        if bar == bars {
            assert(events@ + chord_events(*plan, bar as int) =~= events@);
        }
    }
    events
}

/// Lays out a bass line.
fn lay_bass(plan: &Plan, rng: &mut StdRng) -> (events: Vec<AmtEvent>)
    requires
        is_plan(*plan),
    ensures
        events@ == bass_events(*plan, 0, rng_state(*old(rng))),
{
    let ghost start = rng_state(*rng);
    let mut events: Vec<AmtEvent> = Vec::new();
    let beat: u32 = plan.grid.step;
    let octave: i8 = plan.instrument.base_octave;
    let mut step: u32 = 0;
    assert(events@ + bass_events(*plan, 0, start) =~= bass_events(*plan, 0, start));
    while on_grid(&plan.grid, step)
        invariant
            is_plan(*plan),
            step <= plan.grid.steps,
            beat == plan.grid.step,
            octave == plan.instrument.base_octave,
            events@ + bass_events(*plan, step as int, rng_state(*rng)) == bass_events(
                *plan,
                0,
                start,
            ),
        decreases plan.grid.steps - step,
    {
        let time: u32 = step * plan.grid.step;
        let ghost before = events@;
        let ghost state = rng_state(*rng);
        if step % plan.beats as u32 == 0 {
            let duration: u32 = if beat * 2 <= MAX_DUR - 1 {
                beat * 2
            } else {
                MAX_DUR - 1
            };
            let event = make_note(plan, time, duration, 0, octave);
            events.push(event);
            assert(events@ + bass_events(*plan, step + 1, state) =~= before + (seq![event]
                + bass_events(*plan, step + 1, state)));
        } else {
            let word: u32 = draw_word(rng);
            if word / 256 < 4_194_304 {
                let degree: usize = draw_index(rng, 7);
                let duration: u32 = if beat <= MAX_DUR - 1 {
                    beat
                } else {
                    MAX_DUR - 1
                };
                let event = make_note(plan, time, duration, degree, octave);
                events.push(event);
                assert(events@ + bass_events(*plan, step + 1, rng_state(*rng)) =~= before + (seq![
                    event,
                ] + bass_events(*plan, step + 1, rng_state(*rng))));
            }
        }
        step += 1;
    }
    assert(events@ + bass_events(*plan, step as int, rng_state(*rng)) =~= events@);
    events
}

/// Lays out a melody.
fn lay_melody(plan: &Plan, rng: &mut StdRng) -> (events: Vec<AmtEvent>)
    requires
        is_plan(*plan),
    ensures
        events@ == melody_events(*plan, 0, rng_state(*old(rng))),
        is_sequence(events@, 0),
{
    let ghost start = rng_state(*rng);
    let mut events: Vec<AmtEvent> = Vec::new();
    let beat: u32 = plan.grid.step;
    let mut step: u32 = 0;
    assert(events@ + melody_events(*plan, 0, start) =~= melody_events(*plan, 0, start));
    while on_grid(&plan.grid, step)
        invariant
            is_plan(*plan),
            step <= plan.grid.steps,
            beat == plan.grid.step,
            is_sequence(events@, 0),
            forall|i: int| 0 <= i < events@.len() ==> (#[trigger] events@[i]).time <= step * beat,
            events@ + melody_events(*plan, step as int, rng_state(*rng)) == melody_events(
                *plan,
                0,
                start,
            ),
        decreases plan.grid.steps - step,
    {
        let time: u32 = step * plan.grid.step;
        let ghost before = events@;
        proof {
            lemma_live(*plan, step as int);
        }
        let word: u32 = draw_word(rng);
        if word / 256 <= plan.density {
            let degree: usize = draw_index(rng, 7);
            let raise: i8 = draw_offset(rng, 2);
            let beats: u32 = draw_count(rng, 1, 3);
            assert(1 <= beat * beats <= 600 * 3) by (nonlinear_arith)
                requires
                    1 <= beat <= 600,
                    1 <= beats <= 3,
            ;
            let length: u32 = beat * beats;
            let duration: u32 = if length <= MAX_DUR - 1 {
                length
            } else {
                MAX_DUR - 1
            };
            let event = make_note(
                plan,
                time,
                duration,
                degree,
                plan.instrument.base_octave + raise,
            );
            events.push(event);
            assert(events@ + melody_events(*plan, step + 1, rng_state(*rng)) =~= before + (seq![
                event,
            ] + melody_events(*plan, step + 1, rng_state(*rng))));
        }
        step += 1;
    }
    assert(events@ + melody_events(*plan, step as int, rng_state(*rng)) =~= events@);
    events
}

/// Lays out the events of a plan, with a generator for what is left to chance.
pub fn lay_out(plan: &Plan, rng: StdRng) -> (events: Vec<AmtEvent>)
    requires
        is_plan(*plan),
    ensures
        events@ == planned_events(*plan, rng_state(rng)),
        is_sequence(events@, 0),
{
    let mut rng = rng;
    proof {
        lemma_drums(*plan, 0);
        lemma_arpeggio(*plan, 0);
        lemma_chords(*plan, 0);
        lemma_bass(*plan, 0, rng_state(rng));
        assert(0 * bar_ticks(*plan) == 0);
    }
    match plan.style {
        Style::Drums => lay_drums(plan),
        Style::Arpeggio => lay_arpeggio(plan),
        Style::Chords => lay_chords(plan),
        Style::Bassline => lay_bass(plan, &mut rng),
        Style::Melody => lay_melody(plan, &mut rng),
        Style::Random => lay_melody(plan, &mut rng),
    }
}

/// Generates a deterministic event sequence from the prompt, in the order of the
/// onsets.
pub fn generate_events(config: &TextToMidiConfig) -> (events: Vec<AmtEvent>)
    ensures
        events@ == config_events(*config),
        is_sequence(events@, 0),
{
    let plan = make_plan(config);
    let rng = seed_rng(config.seed);
    lay_out(&plan, rng)
}

/// Generates a flat token sequence from the prompt.
pub fn generate_tokens(config: &TextToMidiConfig) -> (tokens: Vec<u32>)
    ensures
        tokens@ == tokens_of(config_events(*config), config_events(*config).len() as int),
{
    let events = generate_events(config);
    events_to_tokens(events.as_slice())
}

/// The event starts within the longest sequence, takes some time, and has an
/// instrument and a pitch.
pub open spec fn is_generated(event: AmtEvent) -> bool {
    event.time < LONGEST && 1 <= event.duration < MAX_DUR && event.note_id < MAX_NOTE
}

/// The events start at `from` or later, in the order of their onsets, and each is
/// one that the generator may make.
pub open spec fn is_sequence(events: Seq<AmtEvent>, from: int) -> bool {
    &&& forall|i: int|
        0 <= i < events.len() ==> is_generated(#[trigger] events[i]) && events[i].time >= from
    &&& forall|i: int, j: int|
        0 <= i <= j < events.len() ==> (#[trigger] events[i]).time <= (#[trigger] events[j]).time
}

/// Putting events that start at `at` in front of later ones keeps the order.
proof fn lemma_joined(front: Seq<AmtEvent>, back: Seq<AmtEvent>, at: int, next: int)
    requires
        forall|i: int|
            0 <= i < front.len() ==> is_generated(#[trigger] front[i]) && front[i].time == at,
        is_sequence(back, next),
        at <= next,
    ensures
        is_sequence(front + back, at),
{
    let all = front + back;
    assert forall|i: int| 0 <= i < all.len() implies is_generated(#[trigger] all[i])
        && all[i].time >= at by {
        if i < front.len() {
            assert(all[i] == front[i]);
        } else {
            assert(all[i] == back[i - front.len()]);
        }
    }
    assert forall|i: int, j: int| 0 <= i <= j < all.len() implies (#[trigger] all[i]).time <= (
    #[trigger] all[j]).time by {
        if j < front.len() {
            assert(all[i] == front[i] && all[j] == front[j]);
        } else if i < front.len() {
            assert(all[i] == front[i] && all[j] == back[j - front.len()]);
        } else {
            assert(all[i] == back[i - front.len()] && all[j] == back[j - front.len()]);
        }
    }
}

/// The same events start at an earlier time or later, too.
proof fn lemma_earlier(events: Seq<AmtEvent>, from: int, earlier: int)
    requires
        is_sequence(events, from),
        earlier <= from,
    ensures
        is_sequence(events, earlier),
{
}

/// A beat that is in the sequence starts within it, and before the next one.
proof fn lemma_live(plan: Plan, step: int)
    requires
        is_plan(plan),
        is_live(plan.grid, step),
    ensures
        0 <= step * plan.grid.step < LONGEST,
        step * plan.grid.step <= (step + 1) * plan.grid.step,
{
    assert(0 <= step * plan.grid.step <= (step + 1) * plan.grid.step) by (nonlinear_arith)
        requires
            0 <= step,
            0 <= plan.grid.step,
    ;
}

proof fn lemma_drums(plan: Plan, step: int)
    requires
        is_plan(plan),
        step >= 0,
    ensures
        is_sequence(drum_events(plan, step), step * plan.grid.step),
    decreases plan.grid.steps - step,
{
    if is_live(plan.grid, step) {
        lemma_live(plan, step);
        lemma_drums(plan, step + 1);
        lemma_joined(
            seq![drum_note(plan, step)],
            drum_events(plan, step + 1),
            step * plan.grid.step,
            (step + 1) * plan.grid.step,
        );
    }
}

proof fn lemma_arpeggio(plan: Plan, step: int)
    requires
        is_plan(plan),
        step >= 0,
    ensures
        is_sequence(arpeggio_events(plan, step), step * plan.grid.step),
    decreases plan.grid.steps - step,
{
    if is_live(plan.grid, step) {
        lemma_live(plan, step);
        lemma_arpeggio(plan, step + 1);
        lemma_joined(
            seq![
                note(
                    plan,
                    step * plan.grid.step,
                    least(2 * plan.grid.step, 999),
                    arpeggio_degree(step),
                    plan.instrument.base_octave as int,
                ),
            ],
            arpeggio_events(plan, step + 1),
            step * plan.grid.step,
            (step + 1) * plan.grid.step,
        );
    }
}

proof fn lemma_chords(plan: Plan, bar: int)
    requires
        is_plan(plan),
        bar >= 0,
    ensures
        is_sequence(chord_events(plan, bar), bar * bar_ticks(plan)),
    decreases bar_count(plan) - bar,
{
    if bar < bar_count(plan) && bar * bar_ticks(plan) < plan.grid.length {
        let ticks = bar_ticks(plan);
        assert(1 <= ticks) by (nonlinear_arith)
            requires
                ticks == plan.grid.step * plan.beats,
                plan.grid.step >= 1,
                plan.beats >= 1,
        ;
        assert(0 <= bar * ticks <= (bar + 1) * ticks) by (nonlinear_arith)
            requires
                0 <= bar,
                0 <= ticks,
        ;
        lemma_chords(plan, bar + 1);
        lemma_joined(
            chord(plan, bar),
            chord_events(plan, bar + 1),
            bar * ticks,
            (bar + 1) * ticks,
        );
    }
}

proof fn lemma_bass(plan: Plan, step: int, state: Seq<u32>)
    requires
        is_plan(plan),
        step >= 0,
    ensures
        is_sequence(bass_events(plan, step, state), step * plan.grid.step),
    decreases plan.grid.steps - step,
{
    if is_live(plan.grid, step) {
        lemma_live(plan, step);
        let beat = plan.grid.step as int;
        let octave = plan.instrument.base_octave as int;
        let next = (step + 1) * beat;
        if step % plan.beats as int == 0 {
            lemma_bass(plan, step + 1, state);
            lemma_joined(
                seq![note(plan, step * beat, least(2 * beat, 999), 0, octave)],
                bass_events(plan, step + 1, state),
                step * beat,
                next,
            );
        } else {
            let (word, rolled) = drawn_word(state);
            if chance(word) < 4_194_304 {
                let (degree, after) = drawn_index(rolled, 7);
                lemma_bass(plan, step + 1, after);
                lemma_joined(
                    seq![note(plan, step * beat, least(beat, 999), degree as int, octave)],
                    bass_events(plan, step + 1, after),
                    step * beat,
                    next,
                );
            } else {
                lemma_bass(plan, step + 1, rolled);
                lemma_earlier(bass_events(plan, step + 1, rolled), next, step * beat);
            }
        }
    }
}

/// Whatever plays drums plays them on the drum kit.
pub proof fn lemma_drums_on_drum_kit(plan: Plan, step: int)
    ensures
        forall|i: int|
            0 <= i < drum_events(plan, step).len() ==> (#[trigger] drum_events(plan, step)[i]).note_id
                / 128 == 128,
    decreases plan.grid.steps - step,
{
    if is_live(plan.grid, step) {
        lemma_drums_on_drum_kit(plan, step + 1);
        let rest = drum_events(plan, step + 1);
        let all = drum_events(plan, step);
        assert forall|i: int| 0 <= i < all.len() implies (#[trigger] all[i]).note_id / 128
            == 128 by {
            if i > 0 {
                assert(all[i] == rest[i - 1]);
            }
        }
    }
}

/// A prompt whose first instrument is the drum kit gives nothing but drums.
pub proof fn lemma_drum_prompt(config: TextToMidiConfig)
    requires
        first_instrument(words_of(config.prompt@), 0).is_drum,
    ensures
        forall|i: int|
            0 <= i < config_events(config).len() ==> (#[trigger] config_events(config)[i]).note_id
                / 128 == 128,
{
    let plan = plan_of(
        config.prompt@,
        config.bpm,
        optional_text(config.key_scale),
        optional_text(config.time_signature),
        config.length_seconds,
    );
    lemma_drums_on_drum_kit(plan, 0);
}

/// What is not left to chance does not depend on the seed.
pub proof fn lemma_seed_is_idle(plan: Plan, a: Seq<u32>, b: Seq<u32>)
    requires
        plan.style == Style::Drums || plan.style == Style::Arpeggio || plan.style == Style::Chords,
    ensures
        planned_events(plan, a) == planned_events(plan, b),
{
}

/// Configurations that say the same give the same events.
pub proof fn lemma_deterministic(a: TextToMidiConfig, b: TextToMidiConfig)
    requires
        a.prompt@ == b.prompt@,
        a.bpm == b.bpm,
        optional_text(a.key_scale) == optional_text(b.key_scale),
        optional_text(a.time_signature) == optional_text(b.time_signature),
        a.length_seconds == b.length_seconds,
        a.seed == b.seed,
    ensures
        config_events(a) == config_events(b),
{
}

} // verus!
