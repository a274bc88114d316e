//! Tensor names: from those of the published checkpoints to the canonical ones
//! that the runtime modules load.

use vstd::prelude::*;

use crate::text::{
    lemma_pieces_nonempty, owned, pieces, same_text, split, starts_with, strip_prefix, views,
};

verus! {

/// Which model component a checkpoint belongs to.
#[derive(Clone, Copy, Debug, PartialEq, Eq, Structural)]
pub enum Component {
    TextEncoder,
    Lm,
    Dit,
    Condition,
    Vae,
    Silence,
}

impl Component {
    /// The name of the component on the command line.
    pub open spec fn label(self) -> Seq<char> {
        match self {
            Component::TextEncoder => "text-encoder"@,
            Component::Lm => "lm"@,
            Component::Dit => "dit"@,
            Component::Condition => "condition"@,
            Component::Vae => "vae"@,
            Component::Silence => "silence"@,
        }
    }

    /// The component with the given name.
    pub fn parse(value: &str) -> (component: Option<Component>)
        ensures
            component is Some ==> component->0.label() == value@,
            component is None ==> forall|c: Component| #[trigger] c.label() != value@,
    {
        if same_text(value, "text-encoder") {
            Some(Component::TextEncoder)
        } else if same_text(value, "lm") {
            Some(Component::Lm)
        } else if same_text(value, "dit") {
            Some(Component::Dit)
        } else if same_text(value, "condition") {
            Some(Component::Condition)
        } else if same_text(value, "vae") {
            Some(Component::Vae)
        } else if same_text(value, "silence") {
            Some(Component::Silence)
        } else {
            None
        }
    }

    /// The name of the component on the command line.
    pub fn name(self) -> (text: &'static str)
        ensures
            text@ == self.label(),
    {
        match self {
            Component::TextEncoder => "text-encoder",
            Component::Lm => "lm",
            Component::Dit => "dit",
            Component::Condition => "condition",
            Component::Vae => "vae",
            Component::Silence => "silence",
        }
    }
}

/// No two components share a name.
pub proof fn lemma_labels_distinct(a: Component, b: Component)
    requires
        a.label() == b.label(),
    ensures
        a == b,
{
    reveal_strlit("text-encoder");
    reveal_strlit("lm");
    reveal_strlit("dit");
    reveal_strlit("condition");
    reveal_strlit("vae");
    reveal_strlit("silence");
    assert("text-encoder"@[0] == 't');
    assert("lm"@[0] == 'l');
    assert("dit"@[0] == 'd');
    assert("condition"@[0] == 'c');
    assert("vae"@[0] == 'v');
    assert("silence"@[0] == 's');
}

/// `name` without `head`, where it starts with it.
pub open spec fn stripped(name: Seq<char>, head: Seq<char>) -> Option<Seq<char>> {
    if starts_with(name, head) {
        Some(name.skip(head.len() as int))
    } else {
        None
    }
}

/// `name` with `head` at its front replaced by `new`, where it starts with
/// `head`.
pub open spec fn rerooted(name: Seq<char>, head: Seq<char>, new: Seq<char>) -> Option<Seq<char>> {
    match stripped(name, head) {
        Some(rest) => Some(new + rest),
        None => None,
    }
}

/// The canonical name of a Qwen3 tensor: without a leading `model.`; the output
/// head is left out because it shares the embedding.
pub open spec fn qwen3_name(name: Seq<char>) -> Option<Seq<char>> {
    let bare = match stripped(name, "model."@) {
        Some(rest) => rest,
        None => name,
    };
    if bare == "lm_head.weight"@ {
        None
    } else {
        Some(bare)
    }
}

/// The canonical name of a diffusion transformer tensor. Only the `decoder.`
/// tree is kept; the convolutions of its two projections are renamed.
pub open spec fn dit_name(name: Seq<char>) -> Option<Seq<char>> {
    match stripped(name, "decoder."@) {
        None => None,
        Some(rest) => match rerooted(rest, "proj_in.1."@, "proj_in.conv."@) {
            Some(renamed) => Some(renamed),
            None => match rerooted(rest, "proj_out.1."@, "proj_out.conv."@) {
                Some(renamed) => Some(renamed),
                None => Some(rest),
            },
        },
    }
}

/// The canonical name of a condition encoder tensor. Everything outside the six
/// subtrees is left out, and so is the special token of the timbre encoder.
pub open spec fn condition_name(name: Seq<char>) -> Option<Seq<char>> {
    if starts_with(name, "encoder.text_projector."@) {
        rerooted(name, "encoder.text_projector."@, "text_projector."@)
    } else if starts_with(name, "encoder.lyric_encoder."@) {
        rerooted(name, "encoder.lyric_encoder."@, "lyric_encoder."@)
    } else if starts_with(name, "encoder.timbre_encoder."@) {
        if stripped(name, "encoder.timbre_encoder."@) == Some("special_token"@) {
            None
        } else {
            rerooted(name, "encoder.timbre_encoder."@, "timbre_encoder."@)
        }
    } else if starts_with(name, "detokenizer."@) {
        rerooted(name, "detokenizer."@, "detokenizer."@)
    } else if starts_with(name, "tokenizer.quantizer.project_in."@) {
        rerooted(name, "tokenizer.quantizer.project_in."@, "quantizer.project_in."@)
    } else {
        rerooted(name, "tokenizer.quantizer.project_out."@, "quantizer.project_out."@)
    }
}

/// The canonical name of a VAE decoder tensor: without the leading `decoder.`;
/// everything else is left out.
pub open spec fn vae_name(name: Seq<char>) -> Option<Seq<char>> {
    stripped(name, "decoder."@)
}

/// The canonical name of a tensor of the given component; `None` where the
/// tensor is left out.
pub open spec fn canonical(component: Component, name: Seq<char>) -> Option<Seq<char>> {
    match component {
        Component::TextEncoder => qwen3_name(name),
        Component::Lm => qwen3_name(name),
        Component::Dit => dit_name(name),
        Component::Condition => condition_name(name),
        Component::Vae => vae_name(name),
        Component::Silence => None,
    }
}

/// A canonical name that was computed.
pub open spec fn is_name(computed: Option<String>, name: Option<Seq<char>>) -> bool {
    match name {
        Some(text) => computed is Some && computed->0@ == text,
        None => computed is None,
    }
}

/// `name` with `head` at its front replaced by `new`.
fn reroot(name: &str, head: &str, new: &str) -> (renamed: Option<String>)
    ensures
        is_name(renamed, rerooted(name@, head@, new@)),
{
    match strip_prefix(name, head) {
        Some(rest) => {
            let mut renamed = owned(new);
            renamed.append(rest.as_str());
            Some(renamed)
        },
        None => None,
    }
}

/// The canonical name of a Qwen3 tensor.
pub fn map_qwen3(name: &str) -> (mapped: Option<String>)
    ensures
        is_name(mapped, qwen3_name(name@)),
{
    let bare = match strip_prefix(name, "model.") {
        Some(rest) => rest,
        None => owned(name),
    };
    if same_text(bare.as_str(), "lm_head.weight") {
        None
    } else {
        Some(bare)
    }
}

/// The canonical name of a diffusion transformer tensor.
pub fn map_dit(name: &str) -> (mapped: Option<String>)
    ensures
        is_name(mapped, dit_name(name@)),
{
    match strip_prefix(name, "decoder.") {
        None => None,
        Some(rest) => {
            if let Some(renamed) = reroot(rest.as_str(), "proj_in.1.", "proj_in.conv.") {
                return Some(renamed);
            }
            if let Some(renamed) = reroot(rest.as_str(), "proj_out.1.", "proj_out.conv.") {
                return Some(renamed);
            }
            Some(rest)
        },
    }
}

/// The canonical name of a condition encoder tensor.
pub fn map_condition(name: &str) -> (mapped: Option<String>)
    ensures
        is_name(mapped, condition_name(name@)),
{
    if let Some(renamed) = reroot(name, "encoder.text_projector.", "text_projector.") {
        return Some(renamed);
    }
    if let Some(renamed) = reroot(name, "encoder.lyric_encoder.", "lyric_encoder.") {
        return Some(renamed);
    }
    if let Some(rest) = strip_prefix(name, "encoder.timbre_encoder.") {
        if same_text(rest.as_str(), "special_token") {
            return None;
        }
        return reroot(name, "encoder.timbre_encoder.", "timbre_encoder.");
    }
    if let Some(renamed) = reroot(name, "detokenizer.", "detokenizer.") {
        return Some(renamed);
    }
    if let Some(renamed) = reroot(
        name,
        "tokenizer.quantizer.project_in.",
        "quantizer.project_in.",
    ) {
        return Some(renamed);
    }
    reroot(name, "tokenizer.quantizer.project_out.", "quantizer.project_out.")
}

/// The canonical name of a VAE decoder tensor.
pub fn map_vae(name: &str) -> (mapped: Option<String>)
    ensures
        is_name(mapped, vae_name(name@)),
{
    strip_prefix(name, "decoder.")
}

/// The canonical name of a tensor of the given component. The silence latent
/// does not come with named tensors.
pub fn map_name(component: Component, name: &str) -> (mapped: Option<String>)
    requires
        component != Component::Silence,
    ensures
        is_name(mapped, canonical(component, name@)),
{
    match component {
        Component::TextEncoder => map_qwen3(name),
        Component::Lm => map_qwen3(name),
        Component::Dit => map_dit(name),
        Component::Condition => map_condition(name),
        Component::Vae => map_vae(name),
        Component::Silence => None,
    }
}

/// Where a tensor stands in the written file: the parts of its name, and those
/// of the module that holds it.
pub fn tensor_path(name: &str) -> (path: (Vec<String>, Vec<String>))
    ensures
        views(path.0@) == pieces(name@, '.'),
        views(path.1@) == pieces(name@, '.').drop_last(),
{
    let segments = split(name, '.');
    let mut containers: Vec<String> = Vec::new();
    let mut i: usize = 0;
    proof {
        lemma_pieces_nonempty(name@, '.');
        assert(views(segments@).len() == segments@.len());
    }
    while i < segments.len() - 1
        invariant
            i < segments@.len(),
            containers@.len() == i,
            forall|k: int| 0 <= k < i ==> #[trigger] containers@[k]@ == segments@[k]@,
        decreases segments@.len() - i,
    {
        containers.push(segments[i].clone());
        i += 1;
    }
    assert(views(containers@) =~= pieces(name@, '.').drop_last());
    (segments, containers)
}

/// The transformer and its condition encoder come from one checkpoint and share
/// no tensor: what one keeps, the other leaves out.
pub proof fn lemma_dit_condition_disjoint(name: Seq<char>)
    ensures
        dit_name(name) is None || condition_name(name) is None,
{
    reveal_strlit("decoder.");
    reveal_strlit("encoder.text_projector.");
    reveal_strlit("encoder.lyric_encoder.");
    reveal_strlit("encoder.timbre_encoder.");
    reveal_strlit("detokenizer.");
    reveal_strlit("tokenizer.quantizer.project_in.");
    reveal_strlit("tokenizer.quantizer.project_out.");
    if starts_with(name, "decoder."@) {
        assert(name.take(8)[0] == 'd');
        assert(name.take(8)[2] == 'c');
        if starts_with(name, "detokenizer."@) {
            assert(name.take(12)[2] == 't');
        }
        if starts_with(name, "encoder.text_projector."@) {
            assert(name.take(23)[0] == 'e');
        }
        if starts_with(name, "encoder.lyric_encoder."@) {
            assert(name.take(22)[0] == 'e');
        }
        if starts_with(name, "encoder.timbre_encoder."@) {
            assert(name.take(23)[0] == 'e');
        }
        if starts_with(name, "tokenizer.quantizer.project_in."@) {
            assert(name.take(31)[0] == 't');
        }
        if starts_with(name, "tokenizer.quantizer.project_out."@) {
            assert(name.take(32)[0] == 't');
        }
    }
}

/// The VAE map gives no two tensors the same name.
pub proof fn lemma_vae_injective(a: Seq<char>, b: Seq<char>)
    requires
        vae_name(a) is Some,
        vae_name(a) == vae_name(b),
    ensures
        a == b,
{
    let head = "decoder."@;
    assert(a =~= a.take(head.len() as int) + a.skip(head.len() as int));
    assert(b =~= b.take(head.len() as int) + b.skip(head.len() as int));
}

/// Neither the output head nor its prefixed form is ever kept for a language
/// model, under any name.
pub proof fn lemma_head_is_tied(name: Seq<char>)
    ensures
        qwen3_name(name) != Some("lm_head.weight"@),
{
}

} // verus!
