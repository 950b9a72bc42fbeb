use crate::dims;
use crate::dims::checked_len;
use vstd::prelude::*;

verus! {

/// The extents of a Llama model, with its two real numbers as single-precision bits.
#[derive(Clone, Copy, Debug, PartialEq, Eq, Structural)]
pub struct LlamaConfig {
    pub vocab_size: usize,
    pub hidden_size: usize,
    pub intermediate_size: usize,
    pub num_hidden_layers: usize,
    pub num_attention_heads: usize,
    pub num_key_value_heads: usize,
    pub rms_norm_eps: u32,
    pub max_seq_len: usize,
    pub rope_theta: u32,
}

impl LlamaConfig {
    /// The features of a head.
    pub open spec fn head_dim(&self) -> int {
        self.hidden_size as int / self.num_attention_heads as int
    }

    /// There are heads, and tables of positions, caches and scores for a whole sequence can
    /// be held in memory.
    pub open spec fn manageable(&self) -> bool {
        let d = self.head_dim() as usize;
        &&& self.num_attention_heads > 0
        &&& self.hidden_size <= i32::MAX
        &&& self.max_seq_len <= i32::MAX
        &&& dims::fits(seq![1usize, 1usize, self.max_seq_len, d])
        &&& dims::fits(seq![1usize, self.num_key_value_heads, self.max_seq_len, d])
        &&& dims::fits(seq![1usize, self.num_attention_heads, self.max_seq_len, self.max_seq_len])
    }

    /// Whether the extents are manageable.
    pub fn is_manageable(&self) -> (r: bool)
        ensures
            r == self.manageable(),
    {
        if self.num_attention_heads == 0 {
            return false;
        }
        let limit: usize = i32::MAX as usize;
        let d: usize = self.hidden_size / self.num_attention_heads;
        let tables: Vec<usize> = vec![1, 1, self.max_seq_len, d];
        let cache: Vec<usize> = vec![1, self.num_key_value_heads, self.max_seq_len, d];
        let scores: Vec<usize> = vec![1, self.num_attention_heads, self.max_seq_len, self.max_seq_len];
        proof {
            assert(tables@ =~= seq![1usize, 1usize, self.max_seq_len, d]);
            assert(cache@ =~= seq![1usize, self.num_key_value_heads, self.max_seq_len, d]);
            assert(scores@ =~= seq![1usize, self.num_attention_heads, self.max_seq_len, self.max_seq_len]);
        }
        self.hidden_size <= limit && self.max_seq_len <= limit && checked_len(&tables).is_some() && checked_len(
            &cache,
        ).is_some() && checked_len(&scores).is_some()
    }
}

/// The model that the program runs.
pub fn model_config() -> (c: LlamaConfig)
    ensures
        c.vocab_size == 32000,
        c.hidden_size == 2048,
        c.intermediate_size == 5632,
        c.num_hidden_layers == 22,
        c.num_attention_heads == 32,
        c.num_key_value_heads == 4,
        c.rms_norm_eps == 0x3727_c5ac,
        c.max_seq_len == 2048,
        c.rope_theta == 0x461c_4000,
{
    LlamaConfig {
        vocab_size: 32000,
        hidden_size: 2048,
        intermediate_size: 5632,
        num_hidden_layers: 22,
        num_attention_heads: 32,
        num_key_value_heads: 4,
        rms_norm_eps: 0x3727_c5ac,
        max_seq_len: 2048,
        rope_theta: 0x461c_4000,
    }
}

} // verus!
