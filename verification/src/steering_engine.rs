//! Interventions on features of hidden states.

use vstd::prelude::*;

verus! {

/// How a feature is changed. Real-valued settings are bit patterns.
#[derive(Debug, Clone, Copy, PartialEq, Eq, Structural)]
pub enum InterventionMode {
    /// The feature is shifted by `alpha`.
    Steering { alpha: u32 },
    /// The feature is held at `value`.
    Clamping { value: u32 },
    /// The feature is removed.
    Ablation,
}

/// One intervention.
pub struct ControlVector {
    pub feature_idx: usize,
    pub mode: InterventionMode,
    /// A direction in the space of hidden states, for interventions that do not
    /// go through features.
    pub raw_direction: Option<Vec<u32>>,
}

/// The threshold of conditional steering: one half.
pub const CONDITIONAL_THRESHOLD: u32 = 0x3f00_0000;

/// The interventions in force, in the order in which they are applied.
pub struct SteeringEngine {
    pub active_vectors: Vec<ControlVector>,
    pub conditional_threshold: u32,
}

impl Default for SteeringEngine {
    fn default() -> (e: SteeringEngine)
        ensures
            e.active_vectors@.len() == 0,
            e.conditional_threshold == CONDITIONAL_THRESHOLD,
    {
        SteeringEngine::new()
    }
}

impl SteeringEngine {
    /// No intervention.
    pub fn new() -> (e: SteeringEngine)
        ensures
            e.active_vectors@.len() == 0,
            e.conditional_threshold == CONDITIONAL_THRESHOLD,
    {
        SteeringEngine {
            active_vectors: Vec::new(),
            conditional_threshold: CONDITIONAL_THRESHOLD,
        }
    }

    /// One more intervention, applied after the others.
    pub fn add_control_vector(&mut self, vector: ControlVector)
        ensures
            final(self).active_vectors@ == old(self).active_vectors@.push(vector),
            final(self).conditional_threshold == old(self).conditional_threshold,
    {
        self.active_vectors.push(vector);
    }

    /// Ends all interventions.
    pub fn clear_vectors(&mut self)
        ensures
            final(self).active_vectors@.len() == 0,
            final(self).conditional_threshold == old(self).conditional_threshold,
    {
        self.active_vectors.clear();
    }
}

} // verus!
