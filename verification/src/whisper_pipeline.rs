//! The pipeline for sound.

use vstd::prelude::*;

verus! {

/// Turns sound into embeddings of this dimension.
#[derive(Debug, Clone, Copy, PartialEq, Eq, Structural)]
pub struct WhisperPipeline {
    pub hidden_dim: usize,
}

/// The tokens that stand for sound in a draft.
pub open spec fn draft_of_sound() -> Seq<u32> {
    seq![4u32, 5, 6]
}

impl WhisperPipeline {
    /// A pipeline.
    pub fn new(hidden_dim: usize) -> (p: WhisperPipeline)
        ensures
            p.hidden_dim == hidden_dim,
    {
        WhisperPipeline { hidden_dim }
    }

    /// The tokens that stand for sound in a draft.
    pub fn draft_tokens(&self) -> (r: Vec<u32>)
        ensures
            r@ == draft_of_sound(),
    {
        let mut r: Vec<u32> = Vec::new();
        r.push(4);
        r.push(5);
        r.push(6);
        assert(r@ =~= draft_of_sound());
        r
    }
}

} // verus!
