//! What the tokens of the composing model stand for, and how its tensors are named.

use vstd::prelude::*;

use crate::laws::names::begins;
use crate::text::{decimal, is_digit, lemma_decimal_number, starts_with};
use crate::text_to_midi::amt::{
    clamped, decoded, events_of, is_control, is_duration, is_note, is_special, is_time,
    lemma_round_trip_sequence, tokens_of, triplet, AmtEvent, REST, SEPARATOR, VOCAB_SIZE,
};
use crate::text_to_midi::hf_tokenizer::{framed, framed_outcome, may_encode, HfTokenizer};
use crate::text_to_midi::midi_llm::{
    generated_events, is_cued, layer_part, leading_digits, moved, music_token, remapped,
    MIDI_VOCAB_SIZE, SYSTEM_PROMPT,
};
use crate::text_to_midi::tiktoken_convert::{
    base64_text, is_conversion, token_fits, token_lines, TiktokenError,
};

verus! {

/// A note is told by three tokens: its onset, then ten thousand and its duration, then eleven
/// thousand and its number, each as far as the vocabulary goes.
pub proof fn lemma_three_tokens(event: AmtEvent)
    ensures
        triplet(event).len() == 3,
        triplet(event)[0] == (if event.time < 10_000 {
            event.time as int
        } else {
            9_999
        }),
        triplet(event)[1] == 10_000 + (if event.duration < 1_000 {
            event.duration as int
        } else {
            999
        }),
        triplet(event)[2] == 11_000 + (if event.note_id < 16_512 {
            event.note_id as int
        } else {
            16_511
        }),
        SEPARATOR == 55_025,
        VOCAB_SIZE == 55_028,
{
}

/// Three tokens tell a note just where they are an onset, a duration and a number, in this
/// order.
pub proof fn lemma_three_tokens_read(time: u32, duration: u32, note: u32)
    ensures
        time < 10_000 && 10_000 <= duration < 11_000 && 11_000 <= note < 27_512 ==> decoded(
            time,
            duration,
            note,
        ) == Some(
            AmtEvent {
                time,
                duration: (duration - 10_000) as u32,
                note_id: (note - 11_000) as u32,
            },
        ),
        !(time < 10_000 && 10_000 <= duration < 11_000 && 11_000 <= note < 27_512) ==> decoded(
            time,
            duration,
            note,
        ) is None,
{
}

/// Tokens are read three by three: those of the front first, and then those that follow.
pub proof fn lemma_events_join(a: Seq<u32>, b: Seq<u32>, m: int, n: int)
    requires
        a.len() == 3 * m,
        0 <= n,
        3 * n <= b.len(),
    ensures
        events_of(a + b, m + n) == events_of(a, m) + events_of(b, n),
    decreases n,
{
    if n == 0 {
        lemma_events_same(a + b, a, m);
        assert(events_of(a, m) + events_of(b, 0) =~= events_of(a, m));
    } else {
        lemma_events_join(a, b, m, n - 1);
        let all = a + b;
        assert(all[3 * (m + n) - 3] == b[3 * n - 3]);
        assert(all[3 * (m + n) - 2] == b[3 * n - 2]);
        assert(all[3 * (m + n) - 1] == b[3 * n - 1]);
        assert(events_of(all, m + n) =~= events_of(a, m) + events_of(b, n));
    }
}

proof fn lemma_events_same(a: Seq<u32>, b: Seq<u32>, n: int)
    requires
        3 * n <= a.len(),
        3 * n <= b.len(),
        forall|i: int| 0 <= i < 3 * n ==> #[trigger] a[i] == b[i],
    ensures
        events_of(a, n) == events_of(b, n),
    decreases n,
{
    if n > 0 {
        lemma_events_same(a, b, n - 1);
    }
}

/// Notes that the model is given as tokens after those of its text come back as these notes,
/// each as far as the vocabulary goes.
pub proof fn lemma_composed(events: Seq<AmtEvent>, generated: Seq<u32>)
    requires
        generated.len() == 3 * events.len(),
        forall|i: int|
            0 <= i < generated.len() ==> #[trigger] generated[i] == 128_256 + tokens_of(
                events,
                events.len() as int,
            )[i],
    ensures
        generated_events(generated).len() == events.len(),
        forall|i: int|
            0 <= i < events.len() ==> #[trigger] generated_events(generated)[i] == clamped(
                events[i],
            ),
{
    let n = events.len() as int;
    lemma_round_trip_sequence(events, n);
    let tokens = tokens_of(events, n);
    let back = generated.map_values(|token: u32| music_token(token));
    assert forall|i: int| 0 <= i < back.len() implies back[i] == tokens[i] by {
        assert(generated[i] == 128_256 + tokens[i]);
    }
    assert(back =~= tokens);
    assert(generated.len() as int / 3 == n);
}

/// A token of the text stands for the onset nought, and one of the music for its own number.
pub proof fn lemma_music_tokens(token: u32)
    ensures
        token < 128_256 ==> music_token(token) == 0,
        token >= 128_256 ==> music_token(token) == token - 128_256,
        MIDI_VOCAB_SIZE == 183_286,
{
}

/// The marks of the beginning and of the end are put around the ids where they are asked for,
/// and the ids stay as they are.
pub proof fn lemma_framed(ids: Seq<u32>, begin: u32, end: u32)
    ensures
        framed(ids, begin, end, false, false) == ids,
        framed(ids, begin, end, true, false) == seq![begin] + ids,
        framed(ids, begin, end, false, true) == ids + seq![end],
        framed(ids, begin, end, true, true) == seq![begin] + ids + seq![end],
        forall|bos: bool, eos: bool| #[trigger]
            framed_outcome(None, begin, end, bos, eos) is None,
{
    assert(framed(ids, begin, end, false, true) =~= ids + seq![end]);
    assert(framed(ids, begin, end, true, true) =~= seq![begin] + ids + seq![end]);
}

proof fn lemma_moved(head: Seq<char>, tail: Seq<char>, new: Seq<char>)
    requires
        tail.len() > 0,
        !tail.contains('\n'),
    ensures
        moved(head + tail, head, new) == Some(new + tail),
{
    assert((head + tail).take(head.len() as int) =~= head);
    assert((head + tail).skip(head.len() as int) =~= tail);
}

proof fn lemma_not_moved(head: Seq<char>, tail: Seq<char>, other: Seq<char>, new: Seq<char>, k: int)
    requires
        0 <= k < head.len(),
        k < other.len(),
        head[k] != other[k],
    ensures
        moved(head + tail, other, new) is None,
        !starts_with(head + tail, other),
{
    if starts_with(head + tail, other) {
        assert((head + tail).take(other.len() as int)[k] == (head + tail)[k]);
    }
}

/// The tensors outside the layers: the embedding and the output keep what follows their names,
/// whatever it is, and the last norm has a name of its own.
pub proof fn lemma_outer_names(tail: Seq<char>)
    requires
        tail.len() > 0,
        !tail.contains('\n'),
    ensures
        remapped("model.embed_tokens."@ + tail) == "tok_embeddings."@ + tail,
        remapped("lm_head."@ + tail) == "output."@ + tail,
        remapped("model.norm.weight"@) == "norm.gamma"@,
{
    reveal_strlit("model.embed_tokens.");
    reveal_strlit("lm_head.");
    reveal_strlit("model.norm.weight");
    lemma_moved("model.embed_tokens."@, tail, "tok_embeddings."@);
    lemma_moved("lm_head."@, tail, "output."@);
    assert("model.embed_tokens."@[0] == 'm');
    assert("model.embed_tokens."@[6] == 'e');
    assert("lm_head."@[0] == 'l');
    assert("model.norm.weight"@[0] == 'm');
    assert("model.norm.weight"@[6] == 'n');
    lemma_not_moved("lm_head."@, tail, "model.embed_tokens."@, "tok_embeddings."@, 0);
    let name = "model.norm.weight"@;
    let none = Seq::<char>::empty();
    assert(name + none =~= name);
    lemma_not_moved(name, none, "model.embed_tokens."@, "tok_embeddings."@, 6);
    lemma_not_moved(name, none, "lm_head."@, "output."@, 0);
}

/// The head of a tensor in a layer, and the head that it gets.
pub open spec fn layer_heads() -> Seq<(Seq<char>, Seq<char>)> {
    seq![
        ("self_attn.q_proj."@, "attention.wq."@),
        ("self_attn.k_proj."@, "attention.wk."@),
        ("self_attn.v_proj."@, "attention.wv."@),
        ("self_attn.o_proj."@, "attention.wo."@),
        ("mlp.gate_proj."@, "feed_forward.swiglu.linear_inner."@),
        ("mlp.up_proj."@, "feed_forward.swiglu.linear_outer."@),
        ("mlp.down_proj."@, "feed_forward.w2."@),
    ]
}

proof fn lemma_layer_literals()
    ensures
        "self_attn.q_proj."@.len() == 17 && "self_attn.q_proj."@[0] == 's'
            && "self_attn.q_proj."@[10] == 'q',
        "self_attn.k_proj."@.len() == 17 && "self_attn.k_proj."@[0] == 's'
            && "self_attn.k_proj."@[10] == 'k',
        "self_attn.v_proj."@.len() == 17 && "self_attn.v_proj."@[0] == 's'
            && "self_attn.v_proj."@[10] == 'v',
        "self_attn.o_proj."@.len() == 17 && "self_attn.o_proj."@[0] == 's'
            && "self_attn.o_proj."@[10] == 'o',
        "mlp.gate_proj."@.len() == 14 && "mlp.gate_proj."@[0] == 'm' && "mlp.gate_proj."@[4]
            == 'g',
        "mlp.up_proj."@.len() == 12 && "mlp.up_proj."@[0] == 'm' && "mlp.up_proj."@[4] == 'u',
        "mlp.down_proj."@.len() == 14 && "mlp.down_proj."@[0] == 'm' && "mlp.down_proj."@[4]
            == 'd',
        "input_layernorm.weight"@.len() > 0 && "input_layernorm.weight"@[0] == 'i',
        "post_attention_layernorm.weight"@.len() > 0 && "post_attention_layernorm.weight"@[0]
            == 'p',
{
    reveal_strlit("self_attn.q_proj.");
    reveal_strlit("self_attn.k_proj.");
    reveal_strlit("self_attn.v_proj.");
    reveal_strlit("self_attn.o_proj.");
    reveal_strlit("mlp.gate_proj.");
    reveal_strlit("mlp.up_proj.");
    reveal_strlit("mlp.down_proj.");
    reveal_strlit("input_layernorm.weight");
    reveal_strlit("post_attention_layernorm.weight");
}

proof fn lemma_parts(tail: Seq<char>, i: int)
    requires
        tail.len() > 0,
        !tail.contains('\n'),
        0 <= i < 7,
    ensures
        layer_part(layer_heads()[i].0 + tail) == Some(layer_heads()[i].1 + tail),
{
    lemma_layer_literals();
    let heads = layer_heads();
    let head = heads[i].0;
    lemma_moved(head, tail, heads[i].1);
    assert((head + tail)[0] == head[0]);
    assert forall|j: int| 0 <= j < i implies moved(
        head + tail,
        (#[trigger] heads[j]).0,
        heads[j].1,
    ) is None by {
        let k: int = if i < 4 {
            10
        } else if j < 4 {
            0
        } else {
            4
        };
        lemma_not_moved(head, tail, heads[j].0, heads[j].1, k);
    }
    if i > 0 {
        assert(moved(head + tail, heads[0].0, heads[0].1) is None);
    }
    if i > 1 {
        assert(moved(head + tail, heads[1].0, heads[1].1) is None);
    }
    if i > 2 {
        assert(moved(head + tail, heads[2].0, heads[2].1) is None);
    }
    if i > 3 {
        assert(moved(head + tail, heads[3].0, heads[3].1) is None);
    }
    if i > 4 {
        assert(moved(head + tail, heads[4].0, heads[4].1) is None);
    }
    if i > 5 {
        assert(moved(head + tail, heads[5].0, heads[5].1) is None);
    }
}

proof fn lemma_leading(digits: Seq<char>, rest: Seq<char>)
    requires
        forall|i: int| 0 <= i < digits.len() ==> is_digit(#[trigger] digits[i]),
        rest.len() > 0,
        !is_digit(rest[0]),
    ensures
        leading_digits(digits + rest) == digits.len(),
    decreases digits.len(),
{
    let all = digits + rest;
    if digits.len() == 0 {
        assert(all =~= rest);
    } else {
        assert(all[0] == digits[0]);
        assert(all.skip(1) =~= digits.skip(1) + rest);
        assert forall|i: int| 0 <= i < digits.skip(1).len() implies is_digit(
            #[trigger] digits.skip(1)[i],
        ) by {
            assert(digits.skip(1)[i] == digits[i + 1]);
        }
        lemma_leading(digits.skip(1), rest);
    }
}

proof fn lemma_layer(n: nat, part: Seq<char>)
    ensures
        remapped("model.layers."@ + decimal(n) + seq!['.'] + part) == (match layer_part(part) {
            Some(new) => "layers."@ + decimal(n) + seq!['.'] + new,
            None => "model.layers."@ + decimal(n) + seq!['.'] + part,
        }),
{
    lemma_decimal_number(n);
    lemma_any_layer(decimal(n), part);
}

/// The number of a layer is kept digit by digit, and a part that is not known keeps the name as
/// it is.
pub proof fn lemma_any_layer(digits: Seq<char>, part: Seq<char>)
    requires
        digits.len() > 0,
        forall|i: int| 0 <= i < digits.len() ==> is_digit(#[trigger] digits[i]),
    ensures
        remapped("model.layers."@ + digits + seq!['.'] + part) == (match layer_part(part) {
            Some(new) => "layers."@ + digits + seq!['.'] + new,
            None => "model.layers."@ + digits + seq!['.'] + part,
        }),
{
    reveal_strlit("model.layers.");
    reveal_strlit("model.embed_tokens.");
    reveal_strlit("lm_head.");
    reveal_strlit("model.norm.weight");
    let head = "model.layers."@;
    let rest = digits + seq!['.'] + part;
    let name = head + rest;
    assert(head + digits + seq!['.'] + part =~= name);
    assert(head[0] == 'm');
    assert(head[6] == 'l');
    assert("model.embed_tokens."@[6] == 'e');
    assert("lm_head."@[0] == 'l');
    assert("model.norm.weight"@[6] == 'n');
    lemma_not_moved(head, rest, "model.embed_tokens."@, "tok_embeddings."@, 6);
    lemma_not_moved(head, rest, "lm_head."@, "output."@, 0);
    assert(name[6] == head[6]);
    assert(name != "model.norm.weight"@);
    assert(name.take(head.len() as int) =~= head);
    assert(name.skip(head.len() as int) =~= rest);
    let k = digits.len() as int;
    let tail = seq!['.'] + part;
    assert(tail[0] == '.');
    lemma_leading(digits, tail);
    assert(digits + tail =~= rest);
    assert(rest[k] == '.');
    assert(rest.skip(k + 1) =~= part);
    assert(rest.take(k + 1) =~= digits + seq!['.']);
    if layer_part(part) is Some {
        let new = layer_part(part)->0;
        assert("layers."@ + (digits + seq!['.']) + new =~= "layers."@ + digits + seq!['.']
            + new);
    }
}

/// The tensors of a layer keep the number of the layer and what follows the name of their
/// part, whatever it is.
pub proof fn lemma_layer_names(n: nat, tail: Seq<char>, i: int)
    requires
        tail.len() > 0,
        !tail.contains('\n'),
        0 <= i < 7,
    ensures
        remapped("model.layers."@ + decimal(n) + seq!['.'] + (layer_heads()[i].0 + tail))
            == "layers."@ + decimal(n) + seq!['.'] + (layer_heads()[i].1 + tail),
        remapped("model.layers."@ + decimal(n) + seq!['.'] + "input_layernorm.weight"@)
            == "layers."@ + decimal(n) + seq!['.'] + "attention_norm.gamma"@,
        remapped("model.layers."@ + decimal(n) + seq!['.'] + "post_attention_layernorm.weight"@)
            == "layers."@ + decimal(n) + seq!['.'] + "ffn_norm.gamma"@,
{
    lemma_parts(tail, i);
    lemma_layer(n, layer_heads()[i].0 + tail);
    lemma_layer_literals();
    lemma_layer(n, "input_layernorm.weight"@);
    lemma_layer(n, "post_attention_layernorm.weight"@);
}

/// The lines of a vocabulary, one for each token: its bytes, a space and its number. What is
/// already written stays.
pub proof fn lemma_vocabulary_lines(vocabulary: Seq<Seq<u8>>, n: int)
    requires
        0 <= n < vocabulary.len(),
    ensures
        token_lines(vocabulary, n + 1) == token_lines(vocabulary, n) + (base64_text(vocabulary[n])
            + seq![' '] + decimal(n as nat) + seq!['\n']),
        token_lines(vocabulary, 0).len() == 0,
{
    reveal_strlit(" ");
    reveal_strlit("\n");
    assert(" "@ =~= seq![' ']);
    assert("\n"@ =~= seq!['\n']);
}

/// The conversion of a vocabulary lists its first 128,000 tokens, and a smaller one is refused.
pub proof fn lemma_conversion(vocabulary: Seq<Seq<u8>>, text: String)
    ensures
        is_conversion(vocabulary, Ok(text)) <==> {
            &&& vocabulary.len() >= 128_000
            &&& text@ == token_lines(vocabulary, 128_000)
            &&& forall|i: int| 0 <= i < 128_000 ==> #[trigger] token_fits(vocabulary, i)
        },
        vocabulary.len() < 128_000 ==> is_conversion(
            vocabulary,
            Err(TiktokenError::SmallVocab(vocabulary.len() as usize)),
        ),
{
}

/// What a text is encoded to: the ids of the text itself, and the marks where they are asked
/// for; a text of a hundred thousand characters is too long.
pub proof fn lemma_encoded(
    tokenizer: HfTokenizer,
    text: Seq<char>,
    bos: bool,
    eos: bool,
    tokens: Seq<u32>,
)
    requires
        tokenizer.may_give(text, bos, eos, Some(tokens)),
    ensures
        text.len() < 100_000,
        exists|ids: Seq<u32>| #[trigger]
            may_encode(tokenizer.made_from(), text, Some(ids)) && tokens == (if bos {
                seq![tokenizer.begin()]
            } else {
                Seq::empty()
            }) + ids + (if eos {
                seq![tokenizer.end()]
            } else {
                Seq::empty()
            }),
{
    let outcome = choose|outcome: Option<Seq<u32>>| #[trigger]
        may_encode(tokenizer.made_from(), text, outcome) && Some(tokens) == framed_outcome(
            outcome,
            tokenizer.begin(),
            tokenizer.end(),
            bos,
            eos,
        );
    let ids = outcome->0;
    assert(may_encode(tokenizer.made_from(), text, Some(ids)));
    assert(tokens =~= (if bos {
        seq![tokenizer.begin()]
    } else {
        Seq::empty()
    }) + ids + (if eos {
        seq![tokenizer.end()]
    } else {
        Seq::empty()
    }));
}

/// The tokens of a prompt begin with the mark of the beginning and end with the cue to compose.
pub proof fn lemma_cued(tokenizer: HfTokenizer, text: Seq<char>, tokens: Seq<u32>)
    requires
        is_cued(tokenizer, text, Some(tokens)),
    ensures
        tokens.len() >= 2,
        tokens[0] == tokenizer.begin(),
        tokens.last() == 183_282,
        SYSTEM_PROMPT@
            == "You are a world-class composer. Please compose some music according to the following description: "@,
{
    let begun = choose|begun: Option<Seq<u32>>| #[trigger]
        tokenizer.may_give(text, true, false, begun) && Some(tokens) == (match begun {
            Some(ids) => Some(ids.push(183_282)),
            None => None,
        });
    lemma_encoded(tokenizer, text, true, false, begun->0);
}

/// The kinds of the tokens, in the order of their numbers.
pub proof fn lemma_kinds(token: u32)
    ensures
        is_time(token) <==> token < 10_000,
        is_duration(token) <==> 10_000 <= token < 11_000,
        is_note(token) <==> 11_000 <= token < 27_512,
        is_control(token) <==> 27_513 <= token < 55_025,
        is_special(token) <==> 55_025 <= token,
        REST == 27_512,
{
}

/// Every other name is kept as it is: one that has none of the known heads, and one of a layer
/// with a part that is not known.
pub proof fn lemma_other_names(name: Seq<char>, n: nat, part: Seq<char>)
    ensures
        !begins(name, "model."@) && !begins(name, "lm_head."@) ==> remapped(name) == name,
        layer_part(part) is None ==> remapped("model.layers."@ + decimal(n) + seq!['.'] + part)
            == "model.layers."@ + decimal(n) + seq!['.'] + part,
        remapped("lm_head."@) == "lm_head."@,
{
    lemma_layer(n, part);
    reveal_strlit("model.");
    reveal_strlit("lm_head.");
    reveal_strlit("model.embed_tokens.");
    reveal_strlit("model.norm.weight");
    reveal_strlit("model.layers.");
    if starts_with(name, "model.embed_tokens."@) || starts_with(name, "model.layers."@) || name
        == "model.norm.weight"@ {
        assert(name.len() >= 6);
        let longer = if starts_with(name, "model.embed_tokens."@) {
            name.take(19)
        } else if starts_with(name, "model.layers."@) {
            name.take(13)
        } else {
            name
        };
        assert(forall|i: int| 0 <= i < 6 ==> longer[i] == #[trigger] "model."@[i]);
        assert(forall|i: int| 0 <= i < 6 ==> name[i] == longer[i]);
        assert(name =~= "model."@ + name.skip(6));
        assert(begins(name, "model."@));
    }
    if starts_with(name, "lm_head."@) {
        assert(name =~= "lm_head."@ + name.skip(8));
        assert(begins(name, "lm_head."@));
    }
    let head = "lm_head."@;
    assert("model.embed_tokens."@[0] == 'm');
    assert("model.layers."@[0] == 'm');
    assert("model.norm.weight"@[0] == 'm');
    assert(head[0] == 'l');
    let none = Seq::<char>::empty();
    assert(head + none =~= head);
    lemma_not_moved(head, none, "model.embed_tokens."@, "tok_embeddings."@, 0);
    lemma_not_moved(head, none, "model.layers."@, "layers."@, 0);
    assert(head.skip(8) =~= none);
}

/// A name without anything behind its head, or with a line break there, is kept as it is.
pub proof fn lemma_broken_names(tail: Seq<char>)
    requires
        tail.len() == 0 || tail.contains('\n'),
    ensures
        remapped("lm_head."@ + tail) == "lm_head."@ + tail,
        remapped("model.embed_tokens."@ + tail) == "model.embed_tokens."@ + tail,
{
    reveal_strlit("lm_head.");
    reveal_strlit("model.embed_tokens.");
    reveal_strlit("model.norm.weight");
    reveal_strlit("model.layers.");
    let head = "lm_head."@;
    let other = "model.embed_tokens."@;
    assert(head[0] == 'l');
    assert(other[0] == 'm');
    assert(other[6] == 'e');
    assert("model.layers."@[0] == 'm');
    assert("model.layers."@[6] == 'l');
    assert("model.norm.weight"@[0] == 'm');
    assert("model.norm.weight"@[6] == 'n');
    lemma_not_moved(head, tail, other, "tok_embeddings."@, 0);
    lemma_not_moved(head, tail, "model.layers."@, "layers."@, 0);
    lemma_not_moved(other, tail, head, "output."@, 0);
    lemma_not_moved(other, tail, "model.layers."@, "layers."@, 6);
    assert((head + tail).skip(head.len() as int) =~= tail);
    assert((other + tail).skip(other.len() as int) =~= tail);
    assert((head + tail)[0] == 'l');
    assert((other + tail)[6] == 'e');
}

} // verus!
