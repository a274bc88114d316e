//! Configurations of the models.

use vstd::prelude::*;

use crate::convert::decode::product;
use crate::text::same_text;

verus! {

/// Configuration of the diffusion model and the condition stack.
#[derive(Clone, Debug)]
pub struct AceStepConfig {
    pub hidden_size: usize,
    pub intermediate_size: usize,
    pub num_hidden_layers: usize,
    pub num_attention_heads: usize,
    pub num_key_value_heads: usize,
    pub head_dim: usize,
    /// The bits of a double-precision number.
    pub rms_norm_eps: u64,
    /// The bits of a double-precision number.
    pub rope_theta: u64,
    pub sliding_window: usize,
    pub in_channels: usize,
    pub audio_acoustic_hidden_dim: usize,
    pub patch_size: usize,
    pub text_hidden_dim: usize,
    pub num_lyric_encoder_hidden_layers: usize,
    pub num_timbre_encoder_hidden_layers: usize,
    pub timbre_fix_frame: usize,
    pub pool_window_size: usize,
    pub num_attention_pooler_hidden_layers: usize,
    pub fsq_dim: usize,
    pub fsq_input_levels: Vec<u32>,
    pub vocab_size: u32,
    pub layer_types: Vec<String>,
    pub is_turbo: bool,
}

impl AceStepConfig {
    /// Whether the layer attends within a sliding window. A layer that is not
    /// listed does not.
    pub fn is_sliding_layer(&self, layer: usize) -> (answer: bool)
        ensures
            answer == (layer < self.layer_types@.len() && self.layer_types@[layer as int]@
                == "sliding_attention"@),
    {
        layer < self.layer_types.len() && same_text(
            self.layer_types[layer].as_str(),
            "sliding_attention",
        )
    }
}

/// The bits of the default epsilon of a norm, one millionth.
pub const DEFAULT_RMS_NORM_EPS: u64 = 0x3eb0_c6f7_a0b5_ed8d;

/// The bits of the default base of the rotary frequencies, one million.
pub const DEFAULT_ROPE_THETA: u64 = 0x412e_8480_0000_0000;

/// The default number of positions.
pub const DEFAULT_MAX_POSITION_EMBEDDINGS: usize = 32768;

/// Configuration of the text encoder and of the planner.
#[derive(Clone, Debug)]
pub struct Qwen3Config {
    pub hidden_size: usize,
    pub intermediate_size: usize,
    pub num_hidden_layers: usize,
    pub num_attention_heads: usize,
    pub num_key_value_heads: usize,
    /// Zero where it follows from the other sizes.
    pub head_dim: usize,
    /// The bits of a double-precision number.
    pub rms_norm_eps: u64,
    /// The bits of a double-precision number.
    pub rope_theta: u64,
    pub vocab_size: usize,
    pub max_position_embeddings: usize,
    pub tie_word_embeddings: bool,
}

impl Qwen3Config {
    /// Width of a head: the configured one, or else the hidden size shared among
    /// the heads.
    pub fn head_dim(&self) -> (width: usize)
        requires
            self.head_dim != 0 || self.num_attention_heads > 0,
        ensures
            width == (if self.head_dim == 0 {
                self.hidden_size as int / self.num_attention_heads as int
            } else {
                self.head_dim as int
            }),
    {
        if self.head_dim == 0 {
            self.hidden_size / self.num_attention_heads
        } else {
            self.head_dim
        }
    }
}

/// Configuration of the audio decoder.
#[derive(Clone, Debug)]
pub struct OobleckVaeConfig {
    /// Latent dimension, which the decoder takes.
    pub decoder_input_channels: usize,
    /// Base channel count of the decoder.
    pub decoder_channels: usize,
    /// Per-stage multiples of the base channel count.
    pub channel_multiples: Vec<usize>,
    /// Downsampling ratios of the encoder; the decoder upsamples by these
    /// reversed.
    pub downsampling_ratios: Vec<usize>,
    /// Number of audio channels in the decoded output.
    pub audio_channels: usize,
    /// Sampling rate of the decoded audio in Hz.
    pub sampling_rate: usize,
}

/// One stage of the decoder.
#[derive(Clone, Copy, Debug, PartialEq, Eq, Structural)]
pub struct DecoderStage {
    pub in_channels: usize,
    pub out_channels: usize,
    pub stride: usize,
    /// Kernel size of the upsampling: twice the stride.
    pub kernel: usize,
    /// Padding of the upsampling: half the stride, rounded up.
    pub padding: usize,
}

impl OobleckVaeConfig {
    /// Channel count after `stage` stages of the encoder.
    pub open spec fn channels(&self, stage: int) -> int {
        if stage == 0 {
            self.decoder_channels as int
        } else {
            self.decoder_channels * self.channel_multiples@[stage - 1]
        }
    }

    /// The stage of the decoder at an index, in the order of decoding: the
    /// encoder's stages reversed.
    pub open spec fn is_stage(&self, index: int, stage: DecoderStage) -> bool {
        let last = self.downsampling_ratios@.len() - 1 - index;
        let stride = self.downsampling_ratios@[last];
        &&& stage.stride == stride
        &&& stage.in_channels == self.channels(last + 1)
        &&& stage.out_channels == self.channels(last)
        &&& stage.kernel == 2 * stride
        &&& stage.padding == (stride + 1) / 2
    }

    /// There is a multiple for every stage, and the sizes are within machine
    /// limits.
    pub open spec fn is_valid(&self) -> bool {
        &&& self.downsampling_ratios@.len() <= self.channel_multiples@.len()
        &&& forall|i: int|
            0 <= i < self.downsampling_ratios@.len() ==> 2 * #[trigger] self.downsampling_ratios@[i]
                <= usize::MAX
        &&& forall|i: int|
            0 <= i <= self.downsampling_ratios@.len() ==> #[trigger] self.channels(i) <= usize::MAX
    }

    /// Number of audio samples produced per latent frame: the product of the
    /// ratios.
    pub fn hop_length(&self) -> (length: usize)
        requires
            forall|n: int|
                0 <= n <= self.downsampling_ratios@.len() ==> #[trigger] product(
                    self.downsampling_ratios@.take(n),
                ) <= usize::MAX,
        ensures
            length == product(self.downsampling_ratios@),
    {
        let mut length: usize = 1;
        let mut i: usize = 0;
        assert(self.downsampling_ratios@.take(0) =~= Seq::<usize>::empty());
        while i < self.downsampling_ratios.len()
            invariant
                i <= self.downsampling_ratios@.len(),
                length == product(self.downsampling_ratios@.take(i as int)),
                forall|n: int|
                    0 <= n <= self.downsampling_ratios@.len() ==> #[trigger] product(
                        self.downsampling_ratios@.take(n),
                    ) <= usize::MAX,
            decreases self.downsampling_ratios@.len() - i,
        {
            proof {
                let longer = self.downsampling_ratios@.take(i + 1);
                assert(longer.drop_last() =~= self.downsampling_ratios@.take(i as int));
                assert(product(longer) <= usize::MAX);
            }
            length = length * self.downsampling_ratios[i];
            i += 1;
        }
        assert(self.downsampling_ratios@.take(i as int) =~= self.downsampling_ratios@);
        length
    }

    /// Channel count after `stage` stages of the encoder.
    fn stage_channels(&self, stage: usize) -> (count: usize)
        requires
            stage <= self.channel_multiples@.len(),
            self.channels(stage as int) <= usize::MAX,
        ensures
            count == self.channels(stage as int),
    {
        if stage == 0 {
            self.decoder_channels
        } else {
            self.decoder_channels * self.channel_multiples[stage - 1]
        }
    }

    /// Channel count that the decoder starts from.
    pub fn top_channels(&self) -> (count: usize)
        requires
            self.is_valid(),
        ensures
            count == self.channels(self.downsampling_ratios@.len() as int),
    {
        let stages: usize = self.downsampling_ratios.len();
        assert(self.channels(stages as int) <= usize::MAX);
        self.stage_channels(stages)
    }

    /// The stages of the decoder, in the order of decoding.
    pub fn decoder_stages(&self) -> (stages: Vec<DecoderStage>)
        requires
            self.is_valid(),
        ensures
            stages@.len() == self.downsampling_ratios@.len(),
            forall|i: int| 0 <= i < stages@.len() ==> self.is_stage(i, #[trigger] stages@[i]),
    {
        let count: usize = self.downsampling_ratios.len();
        let mut stages: Vec<DecoderStage> = Vec::new();
        let mut i: usize = 0;
        while i < count
            invariant
                i <= count,
                count == self.downsampling_ratios@.len(),
                self.is_valid(),
                stages@.len() == i,
                forall|k: int| 0 <= k < i ==> self.is_stage(k, #[trigger] stages@[k]),
            decreases count - i,
        {
            let last: usize = count - 1 - i;
            let stride: usize = self.downsampling_ratios[last];
            assert(self.channels(last as int) <= usize::MAX);
            assert(self.channels(last + 1) <= usize::MAX);
            stages.push(
                DecoderStage {
                    in_channels: self.stage_channels(last + 1),
                    out_channels: self.stage_channels(last),
                    stride,
                    kernel: 2 * stride,
                    padding: stride / 2 + stride % 2,
                },
            );
            i += 1;
        }
        stages
    }
}

/// Adjacent stages of the decoder fit together: what one gives, the next takes;
/// the last one gives the base channel count.
pub proof fn lemma_stages_chain(config: OobleckVaeConfig, stages: Seq<DecoderStage>)
    requires
        stages.len() == config.downsampling_ratios@.len(),
        forall|i: int| 0 <= i < stages.len() ==> config.is_stage(i, #[trigger] stages[i]),
    ensures
        forall|i: int, j: int|
            0 <= i && j == i + 1 && j < stages.len() ==> #[trigger] stages[i].out_channels
                == #[trigger] stages[j].in_channels,
        stages.len() > 0 ==> stages.last().out_channels == config.decoder_channels,
        stages.len() > 0 ==> stages[0].in_channels == config.channels(stages.len() as int),
{
}

} // verus!
