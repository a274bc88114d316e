//! What becomes of the names of tensors.

use vstd::prelude::*;

use crate::convert::names::{
    canonical, condition_name, dit_name, qwen3_name, rerooted, stripped, vae_name, Component,
};
use crate::text::starts_with;

verus! {

/// The name is `head` with something after it.
pub open spec fn begins(name: Seq<char>, head: Seq<char>) -> bool {
    exists|rest: Seq<char>| name == #[trigger] (head + rest)
}

/// A text with something after it starts with that text, and goes on with the rest.
proof fn lemma_head(head: Seq<char>, rest: Seq<char>)
    ensures
        starts_with(head + rest, head),
        (head + rest).skip(head.len() as int) == rest,
        stripped(head + rest, head) == Some(rest),
        forall|new: Seq<char>| #[trigger] rerooted(head + rest, head, new) == Some(new + rest),
{
    assert((head + rest).take(head.len() as int) =~= head);
    assert((head + rest).skip(head.len() as int) =~= rest);
}

/// Texts that differ in a place do not start alike.
proof fn lemma_apart(name: Seq<char>, a: Seq<char>, b: Seq<char>, k: int)
    requires
        starts_with(name, a),
        0 <= k < a.len(),
        k < b.len(),
        a[k] != b[k],
    ensures
        !starts_with(name, b),
        stripped(name, b) is None,
{
    if starts_with(name, b) {
        assert(name.take(a.len() as int)[k] == name[k]);
        assert(name.take(b.len() as int)[k] == name[k]);
    }
}

/// A name that starts with a text is that text with something after it.
proof fn lemma_begins(name: Seq<char>, head: Seq<char>)
    ensures
        begins(name, head) <==> starts_with(name, head),
        begins(name, head) ==> name == head + name.skip(head.len() as int),
{
    if starts_with(name, head) {
        assert(name =~= head + name.skip(head.len() as int));
    }
    if begins(name, head) {
        let rest = choose|rest: Seq<char>| name == #[trigger] (head + rest);
        lemma_head(head, rest);
    }
}

/// The heads under which the tensors of the condition stack are published.
pub open spec fn condition_heads() -> Seq<Seq<char>> {
    seq![
        "encoder.text_projector."@,
        "encoder.lyric_encoder."@,
        "encoder.timbre_encoder."@,
        "detokenizer."@,
        "tokenizer.quantizer.project_in."@,
        "tokenizer.quantizer.project_out."@,
    ]
}

proof fn lemma_heads_apart(name: Seq<char>)
    ensures
        forall|i: int, j: int|
            0 <= i < 6 && 0 <= j < 6 && i != j && #[trigger] starts_with(
                name,
                condition_heads()[i],
            ) ==> !#[trigger] starts_with(name, condition_heads()[j]),
{
    reveal_strlit("encoder.text_projector.");
    reveal_strlit("encoder.lyric_encoder.");
    reveal_strlit("encoder.timbre_encoder.");
    reveal_strlit("detokenizer.");
    reveal_strlit("tokenizer.quantizer.project_in.");
    reveal_strlit("tokenizer.quantizer.project_out.");
    let heads = condition_heads();
    assert forall|i: int, j: int|
        0 <= i < 6 && 0 <= j < 6 && i != j && #[trigger] starts_with(name, heads[i]) implies
        !#[trigger] starts_with(name, heads[j]) by {
        let k: int = if i == 3 || j == 3 || (i < 3) != (j < 3) {
            0
        } else if i < 3 && (i == 1 || j == 1) {
            8
        } else if i < 3 {
            9
        } else {
            28
        };
        assert("encoder.text_projector."@[0] == 'e');
        assert("encoder.lyric_encoder."@[0] == 'e');
        assert("encoder.timbre_encoder."@[0] == 'e');
        assert("encoder.text_projector."@[8] == 't');
        assert("encoder.lyric_encoder."@[8] == 'l');
        assert("encoder.timbre_encoder."@[8] == 't');
        assert("encoder.text_projector."@[9] == 'e');
        assert("encoder.timbre_encoder."@[9] == 'i');
        assert("detokenizer."@[0] == 'd');
        assert("tokenizer.quantizer.project_in."@[0] == 't');
        assert("tokenizer.quantizer.project_out."@[0] == 't');
        assert("tokenizer.quantizer.project_in."@[28] == 'i');
        assert("tokenizer.quantizer.project_out."@[28] == 'o');
        lemma_apart(name, heads[i], heads[j], k);
    }
}

/// The condition stack keeps six subtrees whole: what follows the head of a subtree
/// stays, whatever it is, under the head that the subtree has in the converted file.
/// Only the special token of the timbre encoder is left out of them.
pub proof fn lemma_condition_subtrees(rest: Seq<char>)
    ensures
        condition_name("encoder.text_projector."@ + rest) == Some("text_projector."@ + rest),
        condition_name("encoder.lyric_encoder."@ + rest) == Some("lyric_encoder."@ + rest),
        rest != "special_token"@ ==> condition_name("encoder.timbre_encoder."@ + rest) == Some(
            "timbre_encoder."@ + rest,
        ),
        condition_name("encoder.timbre_encoder."@ + "special_token"@) is None,
        condition_name("detokenizer."@ + rest) == Some("detokenizer."@ + rest),
        condition_name("tokenizer.quantizer.project_in."@ + rest) == Some(
            "quantizer.project_in."@ + rest,
        ),
        condition_name("tokenizer.quantizer.project_out."@ + rest) == Some(
            "quantizer.project_out."@ + rest,
        ),
{
    let heads = condition_heads();
    assert forall|i: int| 0 <= i < 6 implies starts_with(#[trigger] heads[i] + rest, heads[i]) && (
    forall|j: int| 0 <= j < 6 && j != i ==> !#[trigger] starts_with(heads[i] + rest, heads[j])) by {
        lemma_head(heads[i], rest);
        lemma_heads_apart(heads[i] + rest);
    }
    assert(heads[0] == "encoder.text_projector."@);
    assert(heads[1] == "encoder.lyric_encoder."@);
    assert(heads[2] == "encoder.timbre_encoder."@);
    assert(heads[3] == "detokenizer."@);
    assert(heads[4] == "tokenizer.quantizer.project_in."@);
    assert(heads[5] == "tokenizer.quantizer.project_out."@);
    assert(!starts_with(heads[1] + rest, heads[0]));
    assert(!starts_with(heads[2] + rest, heads[0]) && !starts_with(heads[2] + rest, heads[1]));
    assert(!starts_with(heads[3] + rest, heads[0]) && !starts_with(heads[3] + rest, heads[1])
        && !starts_with(heads[3] + rest, heads[2]));
    assert(!starts_with(heads[4] + rest, heads[0]) && !starts_with(heads[4] + rest, heads[1])
        && !starts_with(heads[4] + rest, heads[2]) && !starts_with(heads[4] + rest, heads[3]));
    assert(!starts_with(heads[5] + rest, heads[0]) && !starts_with(heads[5] + rest, heads[1])
        && !starts_with(heads[5] + rest, heads[2]) && !starts_with(heads[5] + rest, heads[3])
        && !starts_with(heads[5] + rest, heads[4]));
    lemma_head(heads[0], rest);
    lemma_head(heads[1], rest);
    lemma_head(heads[2], rest);
    lemma_head(heads[3], rest);
    lemma_head(heads[4], rest);
    lemma_head(heads[5], rest);
    let token = heads[2] + "special_token"@;
    lemma_head(heads[2], "special_token"@);
    lemma_heads_apart(token);
    assert(starts_with(token, heads[2]));
    assert(!starts_with(token, heads[0]) && !starts_with(token, heads[1]));
}

/// The condition stack leaves a tensor out only if its name has none of the six heads,
/// or is that of the special token of the timbre encoder.
pub proof fn lemma_condition_left_out(name: Seq<char>)
    ensures
        condition_name(name) is None <==> name == "encoder.timbre_encoder."@ + "special_token"@ || (
        forall|i: int| 0 <= i < 6 ==> !begins(name, #[trigger] condition_heads()[i])),
{
    let heads = condition_heads();
    assert(heads[0] == "encoder.text_projector."@);
    assert(heads[1] == "encoder.lyric_encoder."@);
    assert(heads[2] == "encoder.timbre_encoder."@);
    assert(heads[3] == "detokenizer."@);
    assert(heads[4] == "tokenizer.quantizer.project_in."@);
    assert(heads[5] == "tokenizer.quantizer.project_out."@);
    assert forall|i: int| 0 <= i < 6 implies begins(name, #[trigger] heads[i]) == starts_with(
        name,
        heads[i],
    ) && (begins(name, heads[i]) ==> name == heads[i] + name.skip(heads[i].len() as int)) by {
        lemma_begins(name, heads[i]);
    }
    assert forall|i: int| 0 <= i < 6 && begins(name, #[trigger] heads[i]) implies (condition_name(
        name,
    ) is None <==> name == heads[2] + "special_token"@) by {
        let rest = name.skip(heads[i].len() as int);
        lemma_condition_subtrees(rest);
        lemma_head(heads[2], "special_token"@);
        if i != 2 && name == heads[2] + "special_token"@ {
            lemma_heads_apart(name);
        }
    }
    lemma_head(heads[2], "special_token"@);
    lemma_condition_subtrees("special_token"@);
    if forall|i: int| 0 <= i < 6 ==> !begins(name, #[trigger] heads[i]) {
        assert(!begins(name, heads[0]));
        assert(!begins(name, heads[1]));
        assert(!begins(name, heads[2]));
        assert(!begins(name, heads[3]));
        assert(!begins(name, heads[4]));
        assert(!begins(name, heads[5]));
    }
}

/// The diffusion transformer keeps everything below `decoder.`, without that head;
/// the convolutions of its two projections get a name of their own.
pub proof fn lemma_dit_subtree(name: Seq<char>, rest: Seq<char>)
    ensures
        dit_name(name) is None <==> !begins(name, "decoder."@),
        dit_name("decoder.proj_in.1."@ + rest) == Some("proj_in.conv."@ + rest),
        dit_name("decoder.proj_out.1."@ + rest) == Some("proj_out.conv."@ + rest),
        !begins(rest, "proj_in.1."@) && !begins(rest, "proj_out.1."@) ==> dit_name(
            "decoder."@ + rest,
        ) == Some(rest),
{
    reveal_strlit("decoder.");
    reveal_strlit("proj_in.1.");
    reveal_strlit("proj_out.1.");
    reveal_strlit("decoder.proj_in.1.");
    reveal_strlit("decoder.proj_out.1.");
    lemma_begins(name, "decoder."@);
    lemma_begins(rest, "proj_in.1."@);
    lemma_begins(rest, "proj_out.1."@);
    lemma_head("decoder."@, rest);
    assert("decoder.proj_in.1."@ + rest =~= "decoder."@ + ("proj_in.1."@ + rest));
    assert("decoder.proj_out.1."@ + rest =~= "decoder."@ + ("proj_out.1."@ + rest));
    lemma_head("decoder."@, "proj_in.1."@ + rest);
    lemma_head("decoder."@, "proj_out.1."@ + rest);
    lemma_head("proj_in.1."@, rest);
    lemma_head("proj_out.1."@, rest);
    assert("proj_in.1."@[5] == 'i');
    assert("proj_out.1."@[5] == 'o');
    lemma_apart("proj_out.1."@ + rest, "proj_out.1."@, "proj_in.1."@, 5);
}

/// A language model keeps every tensor but its output head, without a `model.` in
/// front, and nothing else of a name changes.
pub proof fn lemma_qwen3_names(name: Seq<char>, rest: Seq<char>)
    ensures
        qwen3_name(name) is None <==> name == "lm_head.weight"@ || name == "model.lm_head.weight"@,
        rest != "lm_head.weight"@ ==> qwen3_name("model."@ + rest) == Some(rest),
        !begins(name, "model."@) && name != "lm_head.weight"@ ==> qwen3_name(name) == Some(name),
{
    reveal_strlit("model.");
    reveal_strlit("lm_head.weight");
    reveal_strlit("model.lm_head.weight");
    lemma_begins(name, "model."@);
    lemma_head("model."@, rest);
    assert("model.lm_head.weight"@ =~= "model."@ + "lm_head.weight"@);
    lemma_head("model."@, "lm_head.weight"@);
    if name == "lm_head.weight"@ {
        assert(name.take(6)[0] == 'l');
        assert("model."@[0] == 'm');
    }
}

/// The decoder of the VAE keeps everything below `decoder.`, without that head.
pub proof fn lemma_vae_subtree(name: Seq<char>, rest: Seq<char>)
    ensures
        vae_name(name) is None <==> !begins(name, "decoder."@),
        vae_name("decoder."@ + rest) == Some(rest),
{
    lemma_begins(name, "decoder."@);
    lemma_head("decoder."@, rest);
}

/// Both language models are renamed alike, each other component in its own way, and
/// the latent of silence has no names.
pub proof fn lemma_components(name: Seq<char>)
    ensures
        canonical(Component::TextEncoder, name) == qwen3_name(name),
        canonical(Component::Lm, name) == qwen3_name(name),
        canonical(Component::Dit, name) == dit_name(name),
        canonical(Component::Condition, name) == condition_name(name),
        canonical(Component::Vae, name) == vae_name(name),
        canonical(Component::Silence, name) is None,
{
}

/// No two tensors of a language model that are kept under different names share one,
/// but for a name that is published both with and without its head.
pub proof fn lemma_qwen3_clashes(a: Seq<char>, b: Seq<char>)
    requires
        qwen3_name(a) is Some,
        qwen3_name(a) == qwen3_name(b),
    ensures
        a == b || a == "model."@ + b || b == "model."@ + a,
{
    lemma_begins(a, "model."@);
    lemma_begins(b, "model."@);
}

} // verus!
