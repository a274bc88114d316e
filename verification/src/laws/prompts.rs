//! What the prompts of a clip say, and which tokens and codes go with them.

use vstd::prelude::*;

use crate::acestep::lm::{
    codes_of, cot_block, optional_line, optional_tempo, optional_text, tempo_text,
    AUDIO_CODES_PER_SECOND, DEFAULT_CFG_SCALE, DEFAULT_TEMPERATURE, DEFAULT_TOP_P, PROMPT_HEAD,
    PROMPT_LYRIC, UNCOND_PROMPT,
};
use crate::acestep::pipeline::{
    caption_prompt, closed, dit_text_prompt, fitted, is_closed_prompt, listed_codes, metas_block,
    missing_names, mixed, next_state, or_missing, planned_prompt, planned_thoughts,
    required_files, AceStepModelPaths, AceStepVariant,
    GenerateMetadata, INSTRUMENTAL_LYRIC_PROMPT, MAX_LYRIC_TOKENS, MAX_TEXT_TOKENS,
    TIMBRE_REFERENCE_FRAMES,
};
use crate::laws::text::{
    lemma_digits_are_core, lemma_one_piece, lemma_pieces_join, lemma_reads_back, lemma_trimmed,
};
use crate::text::{decimal, lemma_decimal_number, pieces, trimmed, unsigned_number, white_space};
use crate::tokenizer::encodes;

verus! {

/// What stands for a value in the metadata of a caption: the value itself, or that it is
/// not given.
pub open spec fn shown(value: Option<Seq<char>>, text: Seq<char>) -> bool {
    match value {
        Some(given) => text == given,
        None => text == seq!['N', '/', 'A'],
    }
}

/// The value is on one line.
pub open spec fn is_line(value: Option<Seq<char>>) -> bool {
    value is Some ==> !value->0.contains('\n')
}

proof fn lemma_line(label: Seq<char>, text: Seq<char>)
    requires
        !label.contains('\n'),
        !text.contains('\n'),
    ensures
        !(label + text).contains('\n'),
        pieces(label + text, '\n') == seq![label + text],
{
    let whole = label + text;
    assert(!whole.contains('\n')) by {
        if whole.contains('\n') {
            let i = choose|i: int| 0 <= i < whole.len() && whole[i] == '\n';
            if i < label.len() {
                assert(label[i] == '\n');
            } else {
                assert(text[i - label.len()] == '\n');
            }
        }
    }
    lemma_one_piece(whole, '\n');
}

proof fn lemma_digits_on_a_line(n: nat)
    ensures
        !decimal(n).contains('\n'),
{
    lemma_decimal_number(n);
    if decimal(n).contains('\n') {
        let i = choose|i: int| 0 <= i < decimal(n).len() && decimal(n)[i] == '\n';
        assert(crate::text::is_digit(decimal(n)[i]));
    }
}

/// The metadata of a caption are four lines, each with its label and with what stands for
/// its own value, whatever the other values are.
pub proof fn lemma_metas_lines(
    bpm: Option<Seq<char>>,
    key: Option<Seq<char>>,
    meter: Option<Seq<char>>,
    duration: nat,
    tempo_shown: Seq<char>,
    meter_shown: Seq<char>,
    key_shown: Seq<char>,
)
    requires
        shown(bpm, tempo_shown),
        shown(meter, meter_shown),
        shown(key, key_shown),
    ensures
        metas_block(bpm, key, meter, duration) == "- bpm: "@ + tempo_shown + seq!['\n']
            + "- timesignature: "@ + meter_shown + seq!['\n'] + "- keyscale: "@ + key_shown + seq![
            '\n',
        ] + "- duration: "@ + decimal(duration) + " seconds"@ + seq!['\n'],
{
    reveal_strlit("N/A");
    reveal_strlit("- bpm: ");
    reveal_strlit("- timesignature: ");
    reveal_strlit("- keyscale: ");
    reveal_strlit("- duration: ");
    reveal_strlit(" seconds");
    reveal_strlit("\n- timesignature: ");
    reveal_strlit("\n- keyscale: ");
    reveal_strlit("\n- duration: ");
    reveal_strlit(" seconds\n");
    assert("N/A"@ =~= seq!['N', '/', 'A']);
    assert(or_missing(bpm) == tempo_shown);
    assert(or_missing(meter) == meter_shown);
    assert(or_missing(key) == key_shown);
    assert("\n- timesignature: "@ =~= seq!['\n'] + "- timesignature: "@);
    assert("\n- keyscale: "@ =~= seq!['\n'] + "- keyscale: "@);
    assert("\n- duration: "@ =~= seq!['\n'] + "- duration: "@);
    assert(" seconds\n"@ =~= " seconds"@ + seq!['\n']);
    assert(metas_block(bpm, key, meter, duration) =~= "- bpm: "@ + tempo_shown + seq!['\n']
        + "- timesignature: "@ + meter_shown + seq!['\n'] + "- keyscale: "@ + key_shown + seq!['\n']
        + "- duration: "@ + decimal(duration) + " seconds"@ + seq!['\n']);
}

/// What stands for the tempo, the meter, the key and the duration of a clip can be read
/// off its metadata line by line: each line tells one value, and no line another.
pub proof fn lemma_metas_tell_apart(
    bpm: Option<Seq<char>>,
    key: Option<Seq<char>>,
    meter: Option<Seq<char>>,
    duration: nat,
)
    requires
        is_line(bpm),
        is_line(key),
        is_line(meter),
    ensures
        ({
            let lines = pieces(metas_block(bpm, key, meter, duration), '\n');
            &&& lines.len() == 5
            &&& exists|text: Seq<char>| #[trigger] shown(bpm, text) && lines[0] == "- bpm: "@ + text
            &&& exists|text: Seq<char>| #[trigger]
                shown(meter, text) && lines[1] == "- timesignature: "@ + text
            &&& exists|text: Seq<char>| #[trigger]
                shown(key, text) && lines[2] == "- keyscale: "@ + text
            &&& lines[3] == "- duration: "@ + decimal(duration) + " seconds"@
            &&& lines[4].len() == 0
        }),
{
    let missing = seq!['N', '/', 'A'];
    let a = if bpm is Some {
        bpm->0
    } else {
        missing
    };
    let b = if meter is Some {
        meter->0
    } else {
        missing
    };
    let c = if key is Some {
        key->0
    } else {
        missing
    };
    lemma_metas_lines(bpm, key, meter, duration, a, b, c);
    lemma_labels_on_a_line();
    lemma_digits_on_a_line(duration);
    assert(!missing.contains('\n'));
    let d = decimal(duration) + " seconds"@;
    lemma_line(decimal(duration), " seconds"@);
    lemma_line("- bpm: "@, a);
    lemma_line("- timesignature: "@, b);
    lemma_line("- keyscale: "@, c);
    lemma_line("- duration: "@, d);
    let la = "- bpm: "@ + a;
    let lb = "- timesignature: "@ + b;
    let lc = "- keyscale: "@ + c;
    let ld = "- duration: "@ + d;
    lemma_four_lines(la, lb, lc, ld);
    let block = metas_block(bpm, key, meter, duration);
    lemma_regrouped(
        "- bpm: "@,
        a,
        "- timesignature: "@,
        b,
        "- keyscale: "@,
        c,
        "- duration: "@,
        decimal(duration),
        " seconds"@,
        seq!['\n'],
    );
    assert(shown(bpm, a) && shown(meter, b) && shown(key, c));
}

/// The labels and values of four lines belong together in pairs.
proof fn lemma_regrouped(
    k: Seq<char>,
    a: Seq<char>,
    l: Seq<char>,
    b: Seq<char>,
    m: Seq<char>,
    c: Seq<char>,
    n: Seq<char>,
    d: Seq<char>,
    unit: Seq<char>,
    end: Seq<char>,
)
    ensures
        k + a + end + l + b + end + m + c + end + n + d + unit + end == (k + a) + end + (l + b)
            + end + (m + c) + end + (n + (d + unit)) + end,
        n + (d + unit) == n + d + unit,
{
    assert(k + a + end + l + b + end + m + c + end + n + d + unit + end =~= (k + a) + end + (l + b)
        + end + (m + c) + end + (n + (d + unit)) + end);
    assert(n + (d + unit) =~= n + d + unit);
}

proof fn lemma_labels_on_a_line()
    ensures
        !"- bpm: "@.contains('\n'),
        !"- timesignature: "@.contains('\n'),
        !"- keyscale: "@.contains('\n'),
        !"- duration: "@.contains('\n'),
        !" seconds"@.contains('\n'),
{
    reveal_strlit("- bpm: ");
    reveal_strlit("- timesignature: ");
    reveal_strlit("- keyscale: ");
    reveal_strlit("- duration: ");
    reveal_strlit(" seconds");
}

/// Four lines, each closed, are cut into those lines and an empty one.
proof fn lemma_four_lines(a: Seq<char>, b: Seq<char>, c: Seq<char>, d: Seq<char>)
    requires
        !a.contains('\n'),
        !b.contains('\n'),
        !c.contains('\n'),
        !d.contains('\n'),
    ensures
        pieces(
            a + seq!['\n'] + b + seq!['\n'] + c + seq!['\n'] + d + seq!['\n'],
            '\n',
        ) == seq![a, b, c, d, Seq::empty()],
{
    let end = seq!['\n'];
    let none = Seq::<char>::empty();
    lemma_one_piece(none, '\n');
    lemma_one_piece(a, '\n');
    lemma_one_piece(b, '\n');
    lemma_one_piece(c, '\n');
    lemma_one_piece(d, '\n');
    lemma_pieces_join(a, b, '\n');
    lemma_pieces_join(a + end + b, c, '\n');
    lemma_pieces_join(a + end + b + end + c, d, '\n');
    lemma_pieces_join(a + end + b + end + c + end + d, none, '\n');
    assert(a + end + b + end + c + end + d + end + none =~= a + end + b + end + c + end + d + end);
    assert(seq![a] + seq![b] + seq![c] + seq![d] + seq![none] =~= seq![a, b, c, d, none]);
}

/// The thoughts of the planner tell what is given and nothing of what is not: the tempo
/// before the caption, then the duration, the key, the language, and the meter.
pub proof fn lemma_thoughts(
    caption: Seq<char>,
    bpm: Seq<char>,
    key: Seq<char>,
    meter: Seq<char>,
    duration: nat,
)
    ensures
        ({
            let front = "<think>\n"@;
            let tempo = "bpm: "@ + bpm + "\n"@;
            let middle = "caption: "@ + caption + "\nduration: "@ + decimal(duration) + "\n"@;
            let tone = "keyscale: "@ + key + "\n"@;
            let speech = "language: unknown\n"@;
            let time = "timesignature: "@ + meter + "\n"@;
            let back = "</think>"@;
            &&& cot_block(caption, Some(bpm), Some(key), Some(meter), duration) == front + tempo
                + middle + tone + speech + time + back
            &&& cot_block(caption, None, Some(key), Some(meter), duration) == front + middle + tone
                + speech + time + back
            &&& cot_block(caption, Some(bpm), None, Some(meter), duration) == front + tempo + middle
                + speech + time + back
            &&& cot_block(caption, Some(bpm), Some(key), None, duration) == front + tempo + middle
                + tone + speech + back
            &&& cot_block(caption, Some(bpm), None, None, duration) == front + tempo + middle
                + speech + back
            &&& cot_block(caption, None, Some(key), None, duration) == front + middle + tone
                + speech + back
            &&& cot_block(caption, None, None, Some(meter), duration) == front + middle + speech
                + time + back
            &&& cot_block(caption, None, None, None, duration) == front + middle + speech + back
        }),
{
    let front = "<think>\n"@;
    let tempo = "bpm: "@ + bpm + "\n"@;
    let middle = "caption: "@ + caption + "\nduration: "@ + decimal(duration) + "\n"@;
    let tone = "keyscale: "@ + key + "\n"@;
    let speech = "language: unknown\n"@;
    let time = "timesignature: "@ + meter + "\n"@;
    let back = "</think>"@;
    assert(optional_line("bpm: "@, Some(bpm)) == tempo);
    assert(optional_line("keyscale: "@, Some(key)) == tone);
    assert(optional_line("timesignature: "@, Some(meter)) == time);
    assert(cot_block(caption, Some(bpm), Some(key), Some(meter), duration) =~= front + tempo
        + middle + tone + speech + time + back);
    assert(cot_block(caption, None, Some(key), Some(meter), duration) =~= front + middle + tone
        + speech + time + back);
    assert(cot_block(caption, Some(bpm), None, Some(meter), duration) =~= front + tempo + middle
        + speech + time + back);
    assert(cot_block(caption, Some(bpm), Some(key), None, duration) =~= front + tempo + middle
        + tone + speech + back);
    assert(cot_block(caption, Some(bpm), None, None, duration) =~= front + tempo + middle + speech
        + back);
    assert(cot_block(caption, None, Some(key), None, duration) =~= front + middle + tone + speech
        + back);
    assert(cot_block(caption, None, None, Some(meter), duration) =~= front + middle + speech + time
        + back);
    assert(cot_block(caption, None, None, None, duration) =~= front + middle + speech + back);
}

/// The prompt of the caption holds the caption and the metadata as they are given, under
/// their headings, and ends with the mark of the end.
pub proof fn lemma_caption_prompt(caption: Seq<char>, metas: Seq<char>)
    ensures
        dit_text_prompt(caption, metas)
            == "# Instruction\nGenerate audio semantic tokens based on the given conditions:\n\n# Caption\n"@
            + caption + "\n\n# Metas\n"@ + metas + "<|endoftext|>\n"@,
{
    reveal_strlit("# Instruction\n");
    reveal_strlit("Generate audio semantic tokens based on the given conditions:");
    reveal_strlit("\n\n# Caption\n");
    reveal_strlit(
        "# Instruction\nGenerate audio semantic tokens based on the given conditions:\n\n# Caption\n",
    );
    assert("# Instruction\n"@ + "Generate audio semantic tokens based on the given conditions:"@
        + "\n\n# Caption\n"@
        =~= "# Instruction\nGenerate audio semantic tokens based on the given conditions:\n\n# Caption\n"@);
    assert(dit_text_prompt(caption, metas)
        =~= "# Instruction\nGenerate audio semantic tokens based on the given conditions:\n\n# Caption\n"@
        + caption + "\n\n# Metas\n"@ + metas + "<|endoftext|>\n"@);
}

/// A request is described by its own tempo, key, meter and whole seconds, in the prompt of
/// the caption as in the thoughts of the planner, which stand after the caption.
pub proof fn lemma_request_is_told(caption: Seq<char>, metadata: GenerateMetadata, ms: usize)
    ensures
        exists|bpm: Option<Seq<char>>, key: Option<Seq<char>>, meter: Option<Seq<char>>|
            {
                &&& (bpm is Some <==> metadata.bpm is Some)
                &&& (bpm is Some ==> bpm->0 == tempo_text(
                    metadata.bpm->0.value,
                    metadata.bpm->0.text@,
                ))
                &&& (key is Some <==> metadata.key_scale is Some)
                &&& (key is Some ==> key->0 == metadata.key_scale->0@)
                &&& (meter is Some <==> metadata.time_signature is Some)
                &&& (meter is Some ==> meter->0 == metadata.time_signature->0@)
                &&& caption_prompt(caption, metadata, ms) == dit_text_prompt(
                    caption,
                    #[trigger] metas_block(bpm, key, meter, (ms / 1000) as nat),
                )
                &&& planned_thoughts(caption, metadata, ms) == cot_block(
                    caption,
                    bpm,
                    key,
                    meter,
                    (ms / 1000) as nat,
                )
            },
        planned_prompt(caption, metadata, ms)
            == "<|im_start|>system\n# Instruction\nGenerate audio semantic tokens based on the given conditions:\n\n<|im_end|>\n<|im_start|>user\n# Caption\n"@
            + caption + "\n\n# Lyric\n[Instrumental]\n<|im_end|>\n<|im_start|>assistant\n"@
            + planned_thoughts(caption, metadata, ms) + "\n\n"@,
{
    let bpm = optional_tempo(metadata.bpm);
    let key = optional_text(metadata.key_scale);
    let meter = optional_text(metadata.time_signature);
    let block = metas_block(bpm, key, meter, (ms / 1000) as nat);
    assert(caption_prompt(caption, metadata, ms) == dit_text_prompt(caption, block));
}

/// Tokens are cut at the limit and then closed: as many as the limit allows stay, in their
/// order, and the mark of the end comes after them.
pub proof fn lemma_closed(ids: Seq<u32>, limit: int)
    requires
        limit >= 0,
    ensures
        closed(ids, limit).len() == (if ids.len() <= limit {
            ids.len() as int
        } else {
            limit
        }) + 1,
        closed(ids, limit).last() == 151_643,
        forall|i: int|
            0 <= i < closed(ids, limit).len() - 1 ==> #[trigger] closed(ids, limit)[i] == ids[i],
{
}

/// Codes keep their places: a list is cut or filled at its end, with its last code, or with
/// noughts where there is none.
pub proof fn lemma_fitted(codes: Seq<u32>, count: int)
    requires
        count >= 0,
    ensures
        fitted(codes, count).len() == count,
        forall|i: int|
            0 <= i < count && i < codes.len() ==> #[trigger] fitted(codes, count)[i] == codes[i],
        codes.len() > 0 ==> forall|i: int|
            codes.len() <= i < count ==> #[trigger] fitted(codes, count)[i] == codes[codes.len()
                - 1],
        codes.len() == 0 ==> forall|i: int| 0 <= i < count ==> #[trigger] fitted(codes, count)[i]
            == 0,
{
}

/// Lists of codes can be read one after the other.
proof fn lemma_listed_codes_join(a: Seq<Seq<char>>, b: Seq<Seq<char>>)
    ensures
        listed_codes(a + b) == listed_codes(a) + listed_codes(b),
    decreases b.len(),
{
    if b.len() == 0 {
        assert(a + b =~= a);
        assert(listed_codes(a) + listed_codes(b) =~= listed_codes(a));
    } else {
        assert((a + b).drop_last() =~= a + b.drop_last());
        assert((a + b).last() == b.last());
        lemma_listed_codes_join(a, b.drop_last());
        assert(listed_codes(a + b) =~= listed_codes(a) + listed_codes(b));
    }
}

/// A list of codes reads as the codes of what is before a comma and then those of what is
/// after it.
pub proof fn lemma_codes_before_and_after(a: Seq<char>, b: Seq<char>)
    ensures
        listed_codes(pieces(a + seq![','] + b, ',')) == listed_codes(pieces(a, ','))
            + listed_codes(pieces(b, ',')),
{
    lemma_pieces_join(a, b, ',');
    lemma_listed_codes_join(pieces(a, ','), pieces(b, ','));
}

/// A code is read from its decimal digits, with or without white space around them; what is
/// no number of 32 bits is passed over.
pub proof fn lemma_one_code(before: Seq<char>, code: nat, after: Seq<char>)
    requires
        forall|i: int| 0 <= i < before.len() ==> white_space(#[trigger] before[i]),
        forall|i: int| 0 <= i < after.len() ==> white_space(#[trigger] after[i]),
    ensures
        code <= u32::MAX ==> listed_codes(seq![before + decimal(code) + after]) == seq![
            code as u32,
        ],
        code > u32::MAX ==> listed_codes(seq![before + decimal(code) + after]).len() == 0,
{
    let part = before + decimal(code) + after;
    lemma_decimal_number(code);
    lemma_digits_are_core(decimal(code));
    lemma_trimmed(before, decimal(code), after);
    lemma_reads_back(code, u32::MAX as int);
    let one = seq![part];
    assert(one.drop_last() =~= Seq::empty());
    assert(listed_codes(Seq::empty()) =~= Seq::<u32>::empty());
    if code <= u32::MAX {
        assert(listed_codes(one) =~= seq![code as u32]);
    }
}

/// What is no number gives no code.
pub proof fn lemma_no_code(part: Seq<char>)
    requires
        unsigned_number(trimmed(part), u32::MAX as int) is None,
    ensures
        listed_codes(seq![part]).len() == 0,
{
    assert(seq![part].drop_last() =~= Seq::empty());
    assert(listed_codes(Seq::empty()).len() == 0);
}

/// The codes of a run are those of its tokens, each in its turn: what comes later does not
/// change what came before, and a token that stands for a code adds that code.
pub proof fn lemma_codes_in_turn(tokens: Seq<u32>, token: u32, map: Map<u32, u32>)
    ensures
        codes_of(tokens.push(token), map, tokens.len() as int + 1) == codes_of(
            tokens,
            map,
            tokens.len() as int,
        ) + (if map.dom().contains(token) {
            seq![map[token]]
        } else {
            Seq::empty()
        }),
{
    lemma_codes_same(tokens, tokens.push(token), map, tokens.len() as int);
    assert(codes_of(tokens.push(token), map, tokens.len() as int + 1) =~= codes_of(
        tokens,
        map,
        tokens.len() as int,
    ) + (if map.dom().contains(token) {
        seq![map[token]]
    } else {
        Seq::empty()
    }));
}

proof fn lemma_codes_same(a: Seq<u32>, b: Seq<u32>, map: Map<u32, u32>, n: int)
    requires
        0 <= n <= a.len(),
        n <= b.len(),
        forall|i: int| 0 <= i < n ==> #[trigger] a[i] == b[i],
    ensures
        codes_of(a, map, n) == codes_of(b, map, n),
    decreases n,
{
    if n > 0 {
        lemma_codes_same(a, b, map, n - 1);
    }
}

/// A file is told as missing just where it is not there.
pub proof fn lemma_missing(names: Seq<Seq<char>>, present: Seq<bool>, n: int, i: int)
    requires
        0 <= i < n <= names.len(),
        n <= present.len(),
    ensures
        !present[i] ==> missing_names(names, present, n).contains(names[i]),
        (forall|k: int| 0 <= k < n ==> #[trigger] present[k]) <==> missing_names(
            names,
            present,
            n,
        ).len() == 0,
        forall|k: int|
            0 <= k < missing_names(names, present, n).len() ==> exists|j: int|
                0 <= j < n && !present[j] && #[trigger] names[j] == #[trigger] missing_names(
                    names,
                    present,
                    n,
                )[k],
    decreases n,
{
    if n == 1 {
        lemma_missing_none(names, present);
    } else if i < n - 1 {
        lemma_missing(names, present, n - 1, i);
    } else {
        lemma_missing(names, present, n - 1, 0);
    }
    let before = missing_names(names, present, n - 1);
    let all = missing_names(names, present, n);
    if !present[n - 1] {
        assert(all[before.len() as int] == names[n - 1]);
    }
    if i < n - 1 && !present[i] {
        let k = choose|k: int| 0 <= k < before.len() && before[k] == names[i];
        assert(all[k] == names[i]);
    }
    assert forall|k: int| 0 <= k < all.len() implies exists|j: int|
        0 <= j < n && !present[j] && #[trigger] names[j] == #[trigger] all[k] by {
        if k < before.len() {
            assert(all[k] == before[k]);
            let j = choose|j: int|
                0 <= j < n - 1 && !present[j] && #[trigger] names[j] == before[k];
            assert(names[j] == all[k]);
        } else {
            assert(names[n - 1] == all[k]);
        }
    }
}

proof fn lemma_missing_none(names: Seq<Seq<char>>, present: Seq<bool>)
    ensures
        missing_names(names, present, 0).len() == 0,
{
}

/// The six first files are the same for both variants; the others bear `sft-` for the
/// fine-tuned one and nothing for the other, before the same names.
pub proof fn lemma_files(i: int)
    requires
        0 <= i < 12,
    ensures
        required_files(AceStepVariant::Turbo).len() == 12,
        required_files(AceStepVariant::Sft).len() == 12,
        required_files(AceStepVariant::Turbo) == seq![
            "qwen3-encoder.bpk"@,
            "qwen3_config.json"@,
            "tokenizer.json"@,
            "acestep-vae.bpk"@,
            "vae_config.json"@,
            "silence_latent.bpk"@,
            "acestep-lm.bpk"@,
            "lm_config.json"@,
            "lm_tokenizer.json"@,
            "acestep-dit.bpk"@,
            "dit_config.json"@,
            "acestep-condition.bpk"@,
        ],
        i < 6 ==> required_files(AceStepVariant::Sft)[i] == required_files(
            AceStepVariant::Turbo,
        )[i],
        i >= 6 ==> required_files(AceStepVariant::Sft)[i] == "sft-"@ + required_files(
            AceStepVariant::Turbo,
        )[i],
{
    reveal_strlit("");
    assert(""@ =~= Seq::empty());
    assert(""@ + "acestep-lm.bpk"@ =~= "acestep-lm.bpk"@);
    assert(""@ + "lm_config.json"@ =~= "lm_config.json"@);
    assert(""@ + "lm_tokenizer.json"@ =~= "lm_tokenizer.json"@);
    assert(""@ + "acestep-dit.bpk"@ =~= "acestep-dit.bpk"@);
    assert(""@ + "dit_config.json"@ =~= "dit_config.json"@);
    assert(""@ + "acestep-condition.bpk"@ =~= "acestep-condition.bpk"@);
}

/// The fixed settings: the limits of the branches, the frames of the reference, the
/// sampling, and the prompts that hold nothing of a request.
pub proof fn lemma_settings()
    ensures
        MAX_TEXT_TOKENS == 256,
        MAX_LYRIC_TOKENS == 2048,
        TIMBRE_REFERENCE_FRAMES == 750,
        AUDIO_CODES_PER_SECOND == 5,
        DEFAULT_TEMPERATURE == 0x3f59_999a,
        DEFAULT_TOP_P == 0x3f66_6666,
        DEFAULT_CFG_SCALE == 0x4000_0000,
        INSTRUMENTAL_LYRIC_PROMPT@
            == "# Languages\nunknown\n\n# Lyric\n[Instrumental]<|endoftext|>"@,
        UNCOND_PROMPT@
            == "<|im_start|>system\n# Instruction\nGenerate audio semantic tokens based on the given conditions:\n\n<|im_end|>\n<|im_start|>user\n<|im_end|>\n<|im_start|>assistant\n<think>\n\n</think>\n\n"@,
        PROMPT_HEAD@
            == "<|im_start|>system\n# Instruction\nGenerate audio semantic tokens based on the given conditions:\n\n<|im_end|>\n<|im_start|>user\n# Caption\n"@,
        PROMPT_LYRIC@ == "\n\n# Lyric\n[Instrumental]\n<|im_end|>\n<|im_start|>assistant\n"@,
{
}

/// The paths of a variant, each in its own place: the planner, the diffusion and the condition
/// stack bear its prefix, and the text encoder, the decoder and the latent do not.
pub proof fn lemma_paths(paths: AceStepModelPaths, variant: AceStepVariant)
    requires
        paths.are_files_of(variant),
    ensures
        ({
            let prefix = if variant == AceStepVariant::Sft {
                "sft-"@
            } else {
                Seq::empty()
            };
            &&& paths.text_encoder_bpk@ == "qwen3-encoder.bpk"@
            &&& paths.text_encoder_config@ == "qwen3_config.json"@
            &&& paths.tokenizer_json@ == "tokenizer.json"@
            &&& paths.vae_bpk@ == "acestep-vae.bpk"@
            &&& paths.vae_config@ == "vae_config.json"@
            &&& paths.silence_latent_bpk@ == "silence_latent.bpk"@
            &&& paths.lm_bpk@ == prefix + "acestep-lm.bpk"@
            &&& paths.lm_config@ == prefix + "lm_config.json"@
            &&& paths.lm_tokenizer@ == prefix + "lm_tokenizer.json"@
            &&& paths.dit_bpk@ == prefix + "acestep-dit.bpk"@
            &&& paths.dit_config@ == prefix + "dit_config.json"@
            &&& paths.condition_bpk@ == prefix + "acestep-condition.bpk"@
        }),
{
    reveal_strlit("");
    assert(""@ =~= Seq::empty());
}

/// The tokens of a branch are those of its prompt, as many as the limit allows, and then the
/// mark of the end.
pub proof fn lemma_closed_prompt(
    rules: Seq<u8>,
    prompt: Seq<char>,
    limit: int,
    tokens: Seq<u32>,
)
    requires
        limit >= 0,
        is_closed_prompt(rules, prompt, limit, tokens),
    ensures
        0 < tokens.len() <= limit + 1,
        tokens.last() == 151_643,
        exists|ids: Seq<u32>| #[trigger]
            encodes(rules, prompt, ids) && tokens.drop_last() == ids.take(tokens.len() - 1) && (
            tokens.len() <= limit ==> tokens.drop_last() == ids),
{
    let ids = choose|ids: Seq<u32>| #[trigger]
        encodes(rules, prompt, ids) && tokens == closed(ids, limit);
    lemma_closed(ids, limit);
    assert(tokens.drop_last() =~= ids.take(tokens.len() - 1));
    if tokens.len() <= limit {
        assert(tokens.drop_last() =~= ids);
    }
}

/// The words of the noise generator: the state goes on by a fixed step, and is mixed by two
/// products with shifted copies, all of 64 bits.
pub proof fn lemma_noise_words(state: u64, a: u64, b: u64)
    requires
        a == ((state ^ (state >> 30u64)) * 0xbf58_476d_1ce4_e5b9) % 0x1_0000_0000_0000_0000,
        b == ((a ^ (a >> 27u64)) * 0x94d0_49bb_1331_11eb) % 0x1_0000_0000_0000_0000,
    ensures
        mixed(state) == b ^ (b >> 31u64),
        next_state(state) == (state + 0x9e37_79b9_7f4a_7c15) % 0x1_0000_0000_0000_0000,
{
}

/// What spells a number, once trimmed, gives that code.
pub proof fn lemma_any_code(part: Seq<char>, code: int)
    requires
        unsigned_number(trimmed(part), u32::MAX as int) == Some(code),
    ensures
        listed_codes(seq![part]) == seq![code as u32],
{
    assert(seq![part].drop_last() =~= Seq::empty());
    assert(listed_codes(Seq::empty()) =~= Seq::<u32>::empty());
    assert(listed_codes(seq![part]) =~= seq![code as u32]);
}

/// The missing files are told in the order in which they are listed, each once.
pub proof fn lemma_missing_in_order(names: Seq<Seq<char>>, present: Seq<bool>, n: int)
    requires
        0 <= n < names.len(),
        n < present.len(),
    ensures
        missing_names(names, present, n + 1) == missing_names(names, present, n) + (if present[n] {
            Seq::empty()
        } else {
            seq![names[n]]
        }),
        missing_names(names, present, 0).len() == 0,
{
    assert(missing_names(names, present, n + 1) =~= missing_names(names, present, n) + (if present[n] {
        Seq::empty()
    } else {
        seq![names[n]]
    }));
}

} // verus!
