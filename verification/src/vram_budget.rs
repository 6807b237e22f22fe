//! How the free video memory is divided.
//!
//! Three quarters of what the system leaves free may be used. That ceiling is
//! divided among primary components, caches and the attention cache in shares
//! that depend on the kind of model.

use vstd::prelude::*;

use crate::text::{dec, dec_string, push_dec, push_right_aligned, right_aligned};

verus! {

/// The kind of model.
#[derive(Debug, Clone, Copy, PartialEq, Eq, Structural)]
pub enum InferenceMode {
    /// A dense model.
    Dense,
    /// A mixture of experts.
    MoE { num_experts: usize, top_k: usize },
    /// A diffusion model.
    Diffusion { num_steps: usize },
}

impl Default for InferenceMode {
    fn default() -> (m: InferenceMode)
        ensures
            m == InferenceMode::Dense,
    {
        InferenceMode::Dense
    }
}

/// The largest whole number that is at most `percent` per cent of `x`.
pub open spec fn share(x: nat, percent: nat) -> nat {
    x * percent / 100
}

fn share_of(x: u64, percent: u64) -> (r: u64)
    requires
        percent <= 100,
    ensures
        r == share(x as nat, percent as nat),
        r <= x,
{
    proof {
        assert(x * percent <= x * 100) by (nonlinear_arith)
            requires
                percent <= 100,
                0 <= x,
        ;
        assert(0 <= x * percent) by (nonlinear_arith)
            requires
                0 <= x,
                0 <= percent,
        ;
    }
    ((x as u128) * (percent as u128) / 100) as u64
}

/// The shares of the ceiling in per cent: primary, cache, attention cache.
pub open spec fn ratios(mode: InferenceMode) -> (nat, nat, nat) {
    match mode {
        InferenceMode::Dense => (60, 0, 40),
        InferenceMode::MoE { .. } => (30, 40, 30),
        InferenceMode::Diffusion { .. } => (20, 50, 30),
    }
}

/// What `x` bytes leave in whole mebibytes, right-aligned in eight characters.
pub open spec fn mib(x: u64) -> Seq<char> {
    right_aligned(dec((x / 1048576) as nat), 8)
}

fn push_mib(out: &mut String, x: u64)
    ensures
        final(out)@ == old(out)@ + mib(x),
{
    let s = dec_string(x / 1024 / 1024);
    push_right_aligned(out, s.as_str(), 8);
}

/// A mode as text.
pub open spec fn mode_text(mode: InferenceMode) -> Seq<char> {
    match mode {
        InferenceMode::Dense => "Dense"@,
        InferenceMode::MoE { num_experts, top_k } => "MoE { num_experts: "@ + dec(
            num_experts as nat,
        ) + ", top_k: "@ + dec(top_k as nat) + " }"@,
        InferenceMode::Diffusion { num_steps } => "Diffusion { num_steps: "@ + dec(
            num_steps as nat,
        ) + " }"@,
    }
}

fn push_mode(out: &mut String, mode: &InferenceMode)
    ensures
        final(out)@ == old(out)@ + mode_text(*mode),
{
    match mode {
        InferenceMode::Dense => {
            out.append("Dense");
        },
        InferenceMode::MoE { num_experts, top_k } => {
            out.append("MoE { num_experts: ");
            push_dec(out, *num_experts as u64);
            out.append(", top_k: ");
            push_dec(out, *top_k as u64);
            out.append(" }");
        },
        InferenceMode::Diffusion { num_steps } => {
            out.append("Diffusion { num_steps: ");
            push_dec(out, *num_steps as u64);
            out.append(" }");
        },
    }
    assert(out@ =~= old(out)@ + mode_text(*mode));
}

/// How the free video memory is divided, in bytes.
#[derive(Debug, Clone, Copy)]
pub struct VramBudget {
    pub total_vram: u64,
    pub used_by_system: u64,
    pub free_vram: u64,
    pub nodestor_ceiling: u64,
    pub primary_budget: u64,
    pub cache_budget: u64,
    pub kv_budget: u64,
    pub mode: InferenceMode,
}

/// The division of `total` bytes of which the system uses `used`.
pub open spec fn divided(total: u64, used: u64, mode: InferenceMode) -> VramBudget {
    let free = if used <= total {
        (total - used) as nat
    } else {
        0
    };
    let ceiling = share(free, 75);
    VramBudget {
        total_vram: total,
        used_by_system: used,
        free_vram: free as u64,
        nodestor_ceiling: ceiling as u64,
        primary_budget: share(ceiling, ratios(mode).0) as u64,
        cache_budget: share(ceiling, ratios(mode).1) as u64,
        kv_budget: share(ceiling, ratios(mode).2) as u64,
        mode,
    }
}

/// The three budgets together never exceed the ceiling, nor the ceiling three
/// quarters of what is free.
pub proof fn budgets_stay_below_ceiling(total: u64, used: u64, mode: InferenceMode)
    ensures
        ({
            let b = divided(total, used, mode);
            &&& b.primary_budget + b.cache_budget + b.kv_budget <= b.nodestor_ceiling
            &&& 4 * b.nodestor_ceiling <= 3 * b.free_vram
            &&& b.free_vram <= total
        }),
{
    let free = if used <= total {
        (total - used) as nat
    } else {
        0
    };
    let c = share(free, 75);
    assert(c == free * 75 / 100);
    assert(share(c, 60) == c * 60 / 100 && share(c, 40) == c * 40 / 100 && share(c, 0) == 0);
    assert(share(c, 30) == c * 30 / 100 && share(c, 20) == c * 20 / 100);
    assert(share(c, 50) == c * 50 / 100);
}

/// The more the system uses, the less there is to divide.
pub proof fn more_system_use_means_less(
    total: u64,
    used: u64,
    more: u64,
    mode: InferenceMode,
)
    requires
        used <= more,
    ensures
        ({
            let a = divided(total, used, mode);
            let b = divided(total, more, mode);
            &&& b.nodestor_ceiling <= a.nodestor_ceiling
            &&& b.primary_budget <= a.primary_budget
            &&& b.cache_budget <= a.cache_budget
            &&& b.kv_budget <= a.kv_budget
        }),
{
}

/// The bytes of an embedding of six bits per weight.
pub open spec fn q6k_bytes(vocab_size: u64, embed_dim: u64) -> int {
    (vocab_size * embed_dim * 6 + 7) / 8
}

impl VramBudget {
    /// Divides `total_vram` bytes of which the system uses `used_by_system`.
    pub fn new(total_vram: u64, used_by_system: u64, mode: InferenceMode) -> (b: VramBudget)
        ensures
            b == divided(total_vram, used_by_system, mode),
    {
        let free_vram: u64 = if used_by_system <= total_vram {
            total_vram - used_by_system
        } else {
            0
        };
        let ceiling: u64 = share_of(free_vram, 75);
        let (p, c, kv): (u64, u64, u64) = Self::ratios_for_mode(&mode);
        VramBudget {
            total_vram,
            used_by_system,
            free_vram,
            nodestor_ceiling: ceiling,
            primary_budget: share_of(ceiling, p),
            cache_budget: share_of(ceiling, c),
            kv_budget: share_of(ceiling, kv),
            mode,
        }
    }

    /// The division where the system is taken to use 20 per cent, for want of what
    /// the device says.
    pub fn detect(total_vram: u64, mode: InferenceMode) -> (b: VramBudget)
        ensures
            b == divided(total_vram, share(total_vram as nat, 20) as u64, mode),
    {
        Self::new(total_vram, share_of(total_vram, 20), mode)
    }

    /// The division for a dense model where the system is taken to use 20 per
    /// cent.
    pub fn estimate(total_vram: u64) -> (b: VramBudget)
        ensures
            b == divided(total_vram, share(total_vram as nat, 20) as u64, InferenceMode::Dense),
    {
        Self::new(total_vram, share_of(total_vram, 20), InferenceMode::Dense)
    }

    fn ratios_for_mode(mode: &InferenceMode) -> (r: (u64, u64, u64))
        ensures
            (r.0 as nat, r.1 as nat, r.2 as nat) == ratios(*mode),
            r.0 <= 100,
            r.1 <= 100,
            r.2 <= 100,
    {
        match mode {
            InferenceMode::Dense => (60, 0, 40),
            InferenceMode::MoE { .. } => (30, 40, 30),
            InferenceMode::Diffusion { .. } => (20, 50, 30),
        }
    }

    /// Whether `bytes` fit into the primary budget.
    pub fn can_fit_primary(&self, bytes: u64) -> (b: bool)
        ensures
            b == (bytes <= self.primary_budget),
    {
        bytes <= self.primary_budget
    }

    /// Whether `bytes` fit into the budget of the attention cache.
    pub fn can_fit_kv(&self, bytes: u64) -> (b: bool)
        ensures
            b == (bytes <= self.kv_budget),
    {
        bytes <= self.kv_budget
    }

    /// Divides again, now that the system uses `used_by_system`.
    pub fn refresh(&mut self, used_by_system: u64)
        ensures
            *final(self) == divided(old(self).total_vram, used_by_system, old(self).mode),
    {
        *self = Self::new(self.total_vram, used_by_system, self.mode);
    }

    /// The division as text.
    pub fn report(&self) -> (s: String)
        ensures
            s@ == "VramBudget ["@ + mode_text(self.mode) + "]\n  Total:   "@ + mib(self.total_vram)
                + " MB\n  Sistema: "@ + mib(self.used_by_system) + " MB\n  Livre:   "@ + mib(
                self.free_vram,
            ) + " MB\n  Teto 75%:"@ + mib(self.nodestor_ceiling) + " MB\n  Primary: "@ + mib(
                self.primary_budget,
            ) + " MB\n  Cache:   "@ + mib(self.cache_budget) + " MB\n  KV:      "@ + mib(
                self.kv_budget,
            ) + " MB"@,
    {
        let mut s = "VramBudget [".to_string();
        push_mode(&mut s, &self.mode);
        s.append("]\n  Total:   ");
        push_mib(&mut s, self.total_vram);
        s.append(" MB\n  Sistema: ");
        push_mib(&mut s, self.used_by_system);
        s.append(" MB\n  Livre:   ");
        push_mib(&mut s, self.free_vram);
        s.append(" MB\n  Teto 75%:");
        push_mib(&mut s, self.nodestor_ceiling);
        s.append(" MB\n  Primary: ");
        push_mib(&mut s, self.primary_budget);
        s.append(" MB\n  Cache:   ");
        push_mib(&mut s, self.cache_budget);
        s.append(" MB\n  KV:      ");
        push_mib(&mut s, self.kv_budget);
        s.append(" MB");
        s
    }

    /// The bytes of an embedding of six bits per weight, rounded up.
    pub fn q6k_embedding_bytes(vocab_size: u64, embed_dim: u64) -> (n: u64)
        requires
            vocab_size * embed_dim * 6 + 7 <= u64::MAX,
        ensures
            n == q6k_bytes(vocab_size, embed_dim),
    {
        proof {
            assert(0 <= vocab_size * embed_dim) by (nonlinear_arith)
                requires
                    0 <= vocab_size,
                    0 <= embed_dim,
            ;
        }
        (vocab_size * embed_dim * 6 + 7) / 8
    }

    /// Whether an embedding and an output projection of its shape fit into the
    /// primary budget.
    pub fn can_fit_draft_q6k(&self, vocab_size: u64, embed_dim: u64) -> (b: bool)
        requires
            vocab_size * embed_dim * 6 + 7 <= u64::MAX,
        ensures
            b == (2 * q6k_bytes(vocab_size, embed_dim) <= self.primary_budget),
    {
        let bytes: u64 = Self::q6k_embedding_bytes(vocab_size, embed_dim);
        let total: u64 = bytes + bytes;
        self.can_fit_primary(total)
    }
}

/// The whole part of `percent` hundredths of `x` is `r`.
pub open spec fn is_percent(r: int, x: int, percent: int) -> bool {
    100 * r <= percent * x < 100 * r + 100
}

/// Three quarters of the free memory are shared out: sixty and forty hundredths between
/// weights and attention cache where the model is dense, thirty, forty and thirty where it
/// is a mixture of experts, twenty, fifty and thirty where it is a diffusion model.
pub proof fn budgets_are_shares_of_the_free_memory(total: u64, used: u64, mode: InferenceMode)
    ensures
        ({
            let b = divided(total, used, mode);
            let c = b.nodestor_ceiling as int;
            &&& b.total_vram == total
            &&& b.used_by_system == used
            &&& b.mode == mode
            &&& b.free_vram == if used <= total {
                total - used
            } else {
                0
            }
            &&& is_percent(c, b.free_vram as int, 75)
            &&& match mode {
                InferenceMode::Dense => is_percent(b.primary_budget as int, c, 60)
                    && b.cache_budget == 0 && is_percent(b.kv_budget as int, c, 40),
                InferenceMode::MoE { .. } => is_percent(b.primary_budget as int, c, 30)
                    && is_percent(b.cache_budget as int, c, 40) && is_percent(
                    b.kv_budget as int,
                    c,
                    30,
                ),
                InferenceMode::Diffusion { .. } => is_percent(b.primary_budget as int, c, 20)
                    && is_percent(b.cache_budget as int, c, 50) && is_percent(
                    b.kv_budget as int,
                    c,
                    30,
                ),
            }
        }),
{
}

/// Weights of six bits fill as few whole bytes as hold them.
pub proof fn six_bits_fill_whole_bytes(vocab_size: u64, embed_dim: u64)
    ensures
        8 * (q6k_bytes(vocab_size, embed_dim) - 1) < 6 * (vocab_size * embed_dim) <= 8 * q6k_bytes(
            vocab_size,
            embed_dim,
        ),
{
}

} // verus!
