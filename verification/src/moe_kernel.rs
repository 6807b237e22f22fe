//! Mixture-of-experts blocks: recognising them, choosing experts, finding
//! expert weights, and counting how experts are used.
//!
//! Router scores come as bit patterns of single-precision numbers: the router's
//! activation is computed elsewhere, the choice among the scores is made here.

use vstd::prelude::*;

use crate::float_bits::{check_lt, float_lt, NEG_INFINITY_BITS};
use crate::ranking::{rank_desc, ranking_descends, ranking_is_a_permutation};
use crate::text::{dec, push_dec};
use crate::weight_store::WeightBank;

verus! {

// ─── Configuration ───────────────────────────────────────────────────────────

/// The activation of the router.
#[derive(Clone, Copy, Debug, PartialEq, Eq, Structural)]
pub enum RouterKind {
    Softmax,
    Sigmoid,
}

/// The shape of a mixture-of-experts model.
#[derive(Debug)]
pub struct MoeConfig {
    pub hidden: usize,
    pub intermediate: usize,
    pub n_experts: usize,
    pub top_k: usize,
    pub n_shared_experts: usize,
    pub shared_intermediate: usize,
    pub router_kind: RouterKind,
    pub norm_top_k_weights: bool,
    /// Whether experts that are not in memory can be loaded on demand.
    pub ssd_store: bool,
}

/// How many experts a router of `router_len` numbers chooses among.
pub open spec fn experts_of(router_len: int, hidden: usize) -> int {
    router_len / (if hidden == 0 {
        1
    } else {
        hidden as int
    })
}

/// How many experts are active per token in a model of `n_experts` experts.
pub open spec fn top_k_for(n_experts: int) -> int {
    if n_experts > 32 {
        8
    } else if n_experts > 8 {
        4
    } else {
        2
    }
}

/// The shape of a mixture-of-experts model with these tensors; nothing where the
/// first block has no router or the router no expert.
pub open spec fn moe_shape(
    bank: Map<Seq<char>, Seq<u8>>,
    hidden: usize,
    intermediate: usize,
    r: Option<MoeConfig>,
) -> bool {
    let router = "blk.0.ffn_gate_inp.weight"@;
    let shared = "blk.0.ffn_gate_shexp.weight"@;
    let n = experts_of(bank[router].len() as int / 4, hidden);
    match r {
        None => !bank.contains_key(router) || n == 0,
        Some(c) => {
            &&& bank.contains_key(router)
            &&& n > 0
            &&& c.hidden == hidden
            &&& c.intermediate == intermediate
            &&& c.n_experts == n
            &&& c.top_k == top_k_for(n)
            &&& c.n_shared_experts == (if bank.contains_key(shared) {
                1int
            } else {
                0int
            })
            &&& c.shared_intermediate == (if bank.contains_key(shared) {
                experts_of(bank[shared].len() as int / 4, hidden)
            } else {
                0int
            })
            &&& c.router_kind == (if n >= 64 {
                RouterKind::Sigmoid
            } else {
                RouterKind::Softmax
            })
            &&& c.norm_top_k_weights
            &&& !c.ssd_store
        },
    }
}

impl MoeConfig {
    /// Recognises a mixture-of-experts model by the tensors of its first block;
    /// nothing where the block has no router or the router no expert.
    pub fn from_weight_bank(wb: &WeightBank, hidden: usize, intermediate: usize) -> (r: Option<
        MoeConfig,
    >)
        requires
            wb.wf(),
        ensures
            moe_shape(wb@, hidden, intermediate, r),
    {
        let divisor: usize = if hidden == 0 {
            1
        } else {
            hidden
        };
        let router_len: usize = match wb.f32_len("blk.0.ffn_gate_inp.weight") {
            Some(n) => n,
            None => {
                return None;
            },
        };
        let n_experts: usize = router_len / divisor;
        if n_experts == 0 {
            return None;
        }
        let (n_shared, shared_int): (usize, usize) = match wb.f32_len(
            "blk.0.ffn_gate_shexp.weight",
        ) {
            Some(n) => (1, n / divisor),
            None => (0, 0),
        };
        let top_k: usize = if n_experts > 32 {
            8
        } else if n_experts > 8 {
            4
        } else {
            2
        };
        let router_kind = if n_experts >= 64 {
            RouterKind::Sigmoid
        } else {
            RouterKind::Softmax
        };
        Some(
            MoeConfig {
                hidden,
                intermediate,
                n_experts,
                top_k,
                n_shared_experts: n_shared,
                shared_intermediate: shared_int,
                router_kind,
                norm_top_k_weights: true,
                ssd_store: false,
            },
        )
    }

    /// The same model, with experts that can be loaded on demand.
    pub fn with_ssd_store(self) -> (c: MoeConfig)
        ensures
            c == (MoeConfig { ssd_store: true, ..self }),
    {
        MoeConfig { ssd_store: true, ..self }
    }
}

// ─── Expert weights ──────────────────────────────────────────────────────────

/// The weights of expert `e` in a stack of `out_dim × in_dim` matrices; nothing
/// where the stack ends before them.
pub fn expert_slice<'a>(stacked: &'a [u32], e: usize, out_dim: usize, in_dim: usize) -> (r: &'a [u32])
    requires
        out_dim * in_dim <= usize::MAX,
        (e + 1) * (out_dim * in_dim) <= usize::MAX,
    ensures
        ({
            let stride = out_dim * in_dim;
            r@ == if (e + 1) * stride <= stacked@.len() {
                stacked@.subrange(e * stride, (e + 1) * stride)
            } else {
                Seq::empty()
            }
        }),
{
    let stride: usize = out_dim * in_dim;
    proof {
        assert((e + 1) * stride == e * stride + stride) by (nonlinear_arith);
        assert(0 <= e * stride) by (nonlinear_arith)
            requires
                0 <= e,
                0 <= stride,
        ;
    }
    let start: usize = e * stride;
    let end: usize = start + stride;
    if end <= stacked.len() {
        &stacked[start..end]
    } else {
        let none = &stacked[0..0];
        assert(none@ =~= Seq::empty());
        none
    }
}

/// Different experts have different weights: their places in the stack do not
/// overlap.
pub proof fn expert_slices_are_disjoint(e: nat, f: nat, stride: nat)
    requires
        e < f,
    ensures
        (e + 1) * stride <= f * stride,
{
    assert((e + 1) * stride <= f * stride) by (nonlinear_arith)
        requires
            e + 1 <= f,
    ;
}

// ─── The router ──────────────────────────────────────────────────────────────

/// Expert `i` can be chosen: it is not chosen yet, and its score is a number
/// above negative infinity.
pub open spec fn eligible(scores: Seq<u32>, chosen: Seq<usize>, i: int) -> bool {
    0 <= i < scores.len() && !chosen.contains(i as usize) && float_lt(
        NEG_INFINITY_BITS,
        scores[i],
    )
}

/// `i` is the next choice after `chosen`: the first among the eligible experts
/// of the largest score; expert 0 where none is eligible.
pub open spec fn next_choice(scores: Seq<u32>, chosen: Seq<usize>, i: int) -> bool {
    if exists|j: int| eligible(scores, chosen, j) {
        &&& eligible(scores, chosen, i)
        &&& forall|j: int|
            #[trigger] eligible(scores, chosen, j) ==> !float_lt(scores[i], scores[j])
        &&& forall|j: int|
            j < i && #[trigger] eligible(scores, chosen, j) ==> float_lt(scores[j], scores[i])
    } else {
        i == 0
    }
}

/// `picks` are choices made one after the other.
pub open spec fn is_selection(scores: Seq<u32>, picks: Seq<usize>) -> bool {
    forall|k: int|
        0 <= k < picks.len() ==> next_choice(scores, picks.take(k), #[trigger] picks[k] as int)
}

fn was_chosen(chosen: &Vec<usize>, i: usize) -> (b: bool)
    ensures
        b == chosen@.contains(i),
{
    let mut k: usize = 0;
    while k < chosen.len()
        invariant
            k <= chosen@.len(),
            forall|j: int| 0 <= j < k ==> chosen@[j] != i,
        decreases chosen@.len() - k,
    {
        if chosen[k] == i {
            return true;
        }
        k = k + 1;
    }
    false
}

fn choose_next(scores: &Vec<u32>, chosen: &Vec<usize>) -> (best_i: usize)
    ensures
        next_choice(scores@, chosen@, best_i as int),
        scores@.len() > 0 ==> best_i < scores@.len(),
{
    let mut best: u32 = NEG_INFINITY_BITS;
    let mut best_i: usize = 0;
    let mut found: Ghost<bool> = Ghost(false);
    let mut i: usize = 0;
    while i < scores.len()
        invariant
            i <= scores@.len(),
            found@ ==> best_i < i && best == scores@[best_i as int] && eligible(
                scores@,
                chosen@,
                best_i as int,
            ),
            !found@ ==> best_i == 0 && best == NEG_INFINITY_BITS,
            found@ == exists|j: int| 0 <= j < i && eligible(scores@, chosen@, j),
            forall|j: int|
                0 <= j < i && #[trigger] eligible(scores@, chosen@, j) ==> !float_lt(
                    best,
                    scores@[j],
                ),
            forall|j: int|
                0 <= j < best_i && #[trigger] eligible(scores@, chosen@, j) ==> float_lt(
                    scores@[j],
                    best,
                ),
        decreases scores@.len() - i,
    {
        if !was_chosen(chosen, i) && check_lt(best, scores[i]) {
            best = scores[i];
            best_i = i;
            found = Ghost(true);
            assert(eligible(scores@, chosen@, i as int));
        }
        i = i + 1;
    }
    best_i
}

/// Chooses `top_k` experts, or all where there are fewer: each time the first of
/// the largest score among those not chosen yet.
pub fn select_experts(scores: &Vec<u32>, top_k: usize) -> (picks: Vec<usize>)
    ensures
        picks@.len() == if top_k <= scores@.len() {
            top_k as nat
        } else {
            scores@.len()
        },
        is_selection(scores@, picks@),
        forall|k: int| 0 <= k < picks@.len() ==> #[trigger] picks@[k] < scores@.len(),
{
    let n: usize = if top_k <= scores.len() {
        top_k
    } else {
        scores.len()
    };
    let mut picks: Vec<usize> = Vec::new();
    while picks.len() < n
        invariant
            n <= scores@.len(),
            picks@.len() <= n,
            is_selection(scores@, picks@),
            forall|k: int| 0 <= k < picks@.len() ==> #[trigger] picks@[k] < scores@.len(),
        decreases n - picks@.len(),
    {
        let best: usize = choose_next(scores, &picks);
        let ghost before = picks@;
        picks.push(best);
        proof {
            assert forall|k: int| 0 <= k < picks@.len() implies next_choice(
                scores@,
                picks@.take(k),
                #[trigger] picks@[k] as int,
            ) by {
                if k < before.len() {
                    assert(picks@.take(k) =~= before.take(k));
                    assert(picks@[k] == before[k]);
                } else {
                    assert(picks@.take(k) =~= before);
                }
            }
        }
    }
    picks
}

/// The experts that the router of `cfg` activates for one token. `scores` are
/// the scores by which experts are chosen: the activated router outputs, with
/// the balancing bias added where the model has one.
pub fn route(scores: &Vec<u32>, cfg: &MoeConfig) -> (picks: Vec<usize>)
    ensures
        picks@.len() == if cfg.top_k <= scores@.len() {
            cfg.top_k as nat
        } else {
            scores@.len()
        },
        is_selection(scores@, picks@),
        forall|k: int| 0 <= k < picks@.len() ==> #[trigger] picks@[k] < scores@.len(),
{
    select_experts(scores, cfg.top_k)
}

/// Where every score is a number above negative infinity, the choices are
/// distinct, come by descending score, and no expert left out has a larger
/// score than one that was chosen.
pub proof fn selection_takes_the_best(scores: Seq<u32>, picks: Seq<usize>)
    requires
        is_selection(scores, picks),
        picks.len() <= scores.len() <= usize::MAX,
        forall|i: int| 0 <= i < scores.len() ==> float_lt(NEG_INFINITY_BITS, #[trigger] scores[i]),
    ensures
        picks.no_duplicates(),
        forall|k: int| 0 <= k < picks.len() ==> #[trigger] picks[k] < scores.len(),
        forall|a: int, b: int|
            0 <= a < b < picks.len() ==> !float_lt(
                scores[#[trigger] picks[a] as int],
                scores[#[trigger] picks[b] as int],
            ),
        forall|a: int, i: int|
            0 <= a < picks.len() && 0 <= i < scores.len() && !picks.contains(i as usize)
                ==> !float_lt(scores[#[trigger] picks[a] as int], #[trigger] scores[i]),
    decreases picks.len(),
{
    if picks.len() > 0 {
        let k = picks.len() - 1;
        let before = picks.take(k);
        assert(is_selection(scores, before)) by {
            assert forall|j: int| 0 <= j < before.len() implies next_choice(
                scores,
                before.take(j),
                #[trigger] before[j] as int,
            ) by {
                assert(before.take(j) =~= picks.take(j));
                assert(before[j] == picks[j]);
            }
        }
        selection_takes_the_best(scores, before);
        let fresh = some_index_is_missing(before, scores.len());
        assert(eligible(scores, before, fresh));
        let last = picks[k];
        assert(next_choice(scores, before, last as int));
        assert(!before.contains(last));
        assert(picks =~= before.push(last));
        assert forall|a: int, b: int| 0 <= a < b < picks.len() implies !float_lt(
            scores[#[trigger] picks[a] as int],
            scores[#[trigger] picks[b] as int],
        ) by {
            assert(picks[a] == before[a]);
            if b == k {
                assert(!before.contains(last as int as usize));
                assert(scores[last as int] == scores[last as int]);
            } else {
                assert(picks[b] == before[b]);
            }
        }
        assert forall|a: int, i: int|
            0 <= a < picks.len() && 0 <= i < scores.len() && !picks.contains(
                i as usize,
            ) implies !float_lt(scores[#[trigger] picks[a] as int], #[trigger] scores[i]) by {
            assert(!before.contains(i as usize)) by {
                if before.contains(i as usize) {
                    let j = choose|j: int| 0 <= j < before.len() && before[j] == i as usize;
                    assert(picks[j] == i as usize);
                }
            }
            if a < k {
                assert(picks[a] == before[a]);
            } else {
                assert(eligible(scores, before, i));
            }
        }
        assert(picks.no_duplicates()) by {
            assert forall|a: int, b: int| 0 <= a < b < picks.len() implies picks[a]
                != picks[b] by {
                assert(picks[a] == before[a]);
                if b < k {
                    assert(picks[b] == before[b]);
                }
            }
        }
    }
}

/// Fewer than `n` indices leave one of `0..n` out.
proof fn some_index_is_missing(picks: Seq<usize>, n: nat) -> (i: int)
    requires
        picks.len() < n <= usize::MAX,
    ensures
        0 <= i < n,
        !picks.contains(i as usize),
{
    if forall|i: int| 0 <= i < n ==> #[trigger] picks.contains(i as usize) {
        let all = Seq::new(n, |i: int| i as usize);
        assert(all.no_duplicates());
        all.unique_seq_to_set();
        assert(all.to_set().subset_of(picks.to_set())) by {
            assert forall|x: usize| all.to_set().contains(x) implies picks.to_set().contains(x) by {
                let i = choose|i: int| 0 <= i < all.len() && all[i] == x;
                assert(picks.contains(i as usize));
            }
        }
        picks.lemma_cardinality_of_set();
        vstd::set_lib::lemma_len_subset(all.to_set(), picks.to_set());
        assert(false);
    }
    choose|i: int| 0 <= i < n && !#[trigger] picks.contains(i as usize)
}

// ─── One block ───────────────────────────────────────────────────────────────

/// The name of the tensor `part` of block `layer`.
pub open spec fn tensor_name(layer: nat, part: Seq<char>) -> Seq<char> {
    "blk."@ + dec(layer) + "."@ + part
}

/// The name of the tensor `part` of block `layer`.
pub fn make_tensor_name(layer: usize, part: &str) -> (s: String)
    ensures
        s@ == tensor_name(layer as nat, part@),
{
    let mut s = "blk.".to_string();
    push_dec(&mut s, layer as u64);
    s.append(".");
    s.append(part);
    s
}

/// The names of the three matrices of a shared expert.
pub struct SharedKeys {
    pub gate: String,
    pub up: String,
    pub down: String,
}

/// The part names of shared expert `s` among `n`: numbered only where there are
/// several.
pub open spec fn shared_part(kind: Seq<char>, s: nat, n: nat) -> Seq<char> {
    if n == 1 {
        kind + ".weight"@
    } else {
        kind + "."@ + dec(s) + ".weight"@
    }
}

fn make_shared_part(kind: &str, s: usize, n: usize) -> (r: String)
    ensures
        r@ == shared_part(kind@, s as nat, n as nat),
{
    let mut r = kind.to_string();
    if n != 1 {
        r.append(".");
        push_dec(&mut r, s as u64);
    }
    r.append(".weight");
    r
}

impl SharedKeys {
    /// The names belong to shared expert `s` among `n` in block `layer`.
    pub open spec fn names(&self, layer: nat, s: nat, n: nat) -> bool {
        &&& self.gate@ == tensor_name(layer, shared_part("ffn_gate_shexp"@, s, n))
        &&& self.up@ == tensor_name(layer, shared_part("ffn_up_shexp"@, s, n))
        &&& self.down@ == tensor_name(layer, shared_part("ffn_down_shexp"@, s, n))
    }
}

/// All three matrices of shared expert `s` among `n` of block `layer` are there.
pub open spec fn shared_present(
    bank: Map<Seq<char>, Seq<u8>>,
    layer: nat,
    s: nat,
    n: nat,
) -> bool {
    &&& bank.contains_key(tensor_name(layer, shared_part("ffn_gate_shexp"@, s, n)))
    &&& bank.contains_key(tensor_name(layer, shared_part("ffn_up_shexp"@, s, n)))
    &&& bank.contains_key(tensor_name(layer, shared_part("ffn_down_shexp"@, s, n)))
}

/// The shared experts among the first `upto` whose matrices are all there.
pub open spec fn shared_experts(
    bank: Map<Seq<char>, Seq<u8>>,
    layer: nat,
    upto: nat,
    n: nat,
) -> Seq<nat>
    decreases upto,
{
    if upto == 0 {
        Seq::empty()
    } else {
        let before = shared_experts(bank, layer, (upto - 1) as nat, n);
        if shared_present(bank, layer, (upto - 1) as nat, n) {
            before.push((upto - 1) as nat)
        } else {
            before
        }
    }
}

/// Where the weights of the routed experts come from.
#[derive(Clone, Copy, Debug, PartialEq, Eq, Structural)]
pub enum ExpertSource {
    /// All three stacks of expert matrices are in the bank.
    Memory,
    /// The experts are loaded one by one.
    OnDemand,
}

/// What a block needs for one token: where its experts come from, whether the
/// choice of experts has a bias, and which shared experts contribute.
pub struct MoePlan {
    pub router: String,
    pub bias: Option<String>,
    pub source: ExpertSource,
    pub shared: Vec<SharedKeys>,
}

/// All three stacks of expert matrices of block `layer` are in the bank.
pub open spec fn experts_in_memory(bank: Map<Seq<char>, Seq<u8>>, layer: nat) -> bool {
    &&& bank.contains_key(tensor_name(layer, "ffn_gate_exps.weight"@))
    &&& bank.contains_key(tensor_name(layer, "ffn_up_exps.weight"@))
    &&& bank.contains_key(tensor_name(layer, "ffn_down_exps.weight"@))
}

/// Plans block `layer` for one token. There is no plan where the router is
/// missing, or where the experts are neither in the bank nor loadable.
pub fn moe_ffn_step(cfg: &MoeConfig, wb: &WeightBank, layer: usize) -> (r: Option<MoePlan>)
    requires
        wb.wf(),
    ensures
        ({
            let router = tensor_name(layer as nat, "ffn_gate_inp.weight"@);
            let bias = tensor_name(layer as nat, "exp_probs_b"@);
            let in_memory = experts_in_memory(wb@, layer as nat);
            let list = shared_experts(
                wb@,
                layer as nat,
                cfg.n_shared_experts as nat,
                cfg.n_shared_experts as nat,
            );
            match r {
                None => !wb@.contains_key(router) || (!in_memory && !cfg.ssd_store),
                Some(plan) => {
                    &&& wb@.contains_key(router)
                    &&& plan.router@ == router
                    &&& match plan.bias {
                        Some(b) => wb@.contains_key(bias) && b@ == bias,
                        None => !wb@.contains_key(bias),
                    }
                    &&& if in_memory {
                        plan.source == ExpertSource::Memory
                    } else {
                        cfg.ssd_store && plan.source == ExpertSource::OnDemand
                    }
                    &&& plan.shared@.len() == list.len()
                    &&& forall|k: int|
                        0 <= k < list.len() ==> (#[trigger] plan.shared@[k]).names(
                            layer as nat,
                            list[k],
                            cfg.n_shared_experts as nat,
                        )
                },
            }
        }),
{
    let router = make_tensor_name(layer, "ffn_gate_inp.weight");
    if wb.get(router.as_str()).is_none() {
        return None;
    }
    let bias_name = make_tensor_name(layer, "exp_probs_b");
    let bias = if wb.get(bias_name.as_str()).is_some() {
        Some(bias_name)
    } else {
        None
    };
    let gate = make_tensor_name(layer, "ffn_gate_exps.weight");
    let up = make_tensor_name(layer, "ffn_up_exps.weight");
    let down = make_tensor_name(layer, "ffn_down_exps.weight");
    let in_memory: bool = wb.get(gate.as_str()).is_some() && wb.get(up.as_str()).is_some()
        && wb.get(down.as_str()).is_some();
    let source = if in_memory {
        ExpertSource::Memory
    } else if cfg.ssd_store {
        ExpertSource::OnDemand
    } else {
        return None;
    };
    let n: usize = cfg.n_shared_experts;
    let mut shared: Vec<SharedKeys> = Vec::new();
    let mut s: usize = 0;
    while s < n
        invariant
            wb.wf(),
            s <= n,
            shared@.len() == shared_experts(wb@, layer as nat, s as nat, n as nat).len(),
            forall|k: int|
                0 <= k < shared@.len() ==> (#[trigger] shared@[k]).names(
                    layer as nat,
                    shared_experts(wb@, layer as nat, s as nat, n as nat)[k],
                    n as nat,
                ),
        decreases n - s,
    {
        let gate_part = make_shared_part("ffn_gate_shexp", s, n);
        let up_part = make_shared_part("ffn_up_shexp", s, n);
        let down_part = make_shared_part("ffn_down_shexp", s, n);
        let keys = SharedKeys {
            gate: make_tensor_name(layer, gate_part.as_str()),
            up: make_tensor_name(layer, up_part.as_str()),
            down: make_tensor_name(layer, down_part.as_str()),
        };
        if wb.get(keys.gate.as_str()).is_some() && wb.get(keys.up.as_str()).is_some() && wb.get(
            keys.down.as_str(),
        ).is_some() {
            shared.push(keys);
        }
        s = s + 1;
    }
    Some(MoePlan { router, bias, source, shared })
}

// ─── How experts are used ────────────────────────────────────────────────────

/// Counts how often each expert was chosen.
pub struct ExpertLoadTracker {
    pub counts: Vec<u64>,
    pub tokens_seen: u64,
}

/// How often `e` occurs in `selected`.
pub open spec fn occurrences(selected: Seq<usize>, e: usize) -> nat
    decreases selected.len(),
{
    if selected.len() == 0 {
        0
    } else {
        occurrences(selected.drop_last(), e) + if selected.last() == e {
            1nat
        } else {
            0nat
        }
    }
}

proof fn occurrences_grow(selected: Seq<usize>, k: int, e: usize)
    requires
        0 <= k <= selected.len(),
    ensures
        occurrences(selected.take(k), e) <= occurrences(selected, e),
    decreases selected.len(),
{
    if k < selected.len() {
        occurrences_grow(selected.drop_last(), k, e);
        assert(selected.drop_last().take(k) =~= selected.take(k));
    } else {
        assert(selected.take(k) =~= selected);
    }
}

impl ExpertLoadTracker {
    /// No expert was chosen yet.
    pub fn new(n_experts: usize) -> (t: ExpertLoadTracker)
        ensures
            t.counts@ == Seq::new(n_experts as nat, |i: int| 0u64),
            t.tokens_seen == 0,
    {
        let counts: Vec<u64> = vec![0u64; n_experts];
        assert(counts@ =~= Seq::new(n_experts as nat, |i: int| 0u64));
        ExpertLoadTracker { counts, tokens_seen: 0 }
    }

    /// One token chose the experts `selected`. Unknown experts are not counted.
    pub fn record(&mut self, selected: &Vec<usize>)
        requires
            old(self).tokens_seen < u64::MAX,
            forall|i: int|
                0 <= i < old(self).counts@.len() ==> #[trigger] old(self).counts@[i] + occurrences(
                    selected@,
                    i as usize,
                ) <= u64::MAX,
        ensures
            final(self).tokens_seen == old(self).tokens_seen + 1,
            final(self).counts@.len() == old(self).counts@.len(),
            forall|i: int|
                0 <= i < final(self).counts@.len() ==> #[trigger] final(self).counts@[i] == old(
                    self,
                ).counts@[i] + occurrences(selected@, i as usize),
    {
        let ghost before = self.counts@;
        let n: usize = self.counts.len();
        let mut k: usize = 0;
        assert(selected@.take(0) =~= Seq::<usize>::empty());
        while k < selected.len()
            invariant
                k <= selected@.len(),
                n == before.len(),
                self.counts@.len() == n,
                self.tokens_seen == old(self).tokens_seen,
                forall|i: int|
                    0 <= i < n ==> #[trigger] before[i] + occurrences(selected@, i as usize)
                        <= u64::MAX,
                forall|i: int|
                    0 <= i < n ==> #[trigger] self.counts@[i] == before[i] + occurrences(
                        selected@.take(k as int),
                        i as usize,
                    ),
            decreases selected@.len() - k,
        {
            let e: usize = selected[k];
            proof {
                let next = selected@.take(k + 1);
                assert(next.drop_last() =~= selected@.take(k as int));
                if e < n {
                    occurrences_grow(selected@, k + 1, e);
                    assert(before[e as int] + occurrences(selected@, e) <= u64::MAX);
                    assert(self.counts@[e as int] == before[e as int] + occurrences(
                        selected@.take(k as int),
                        e,
                    ));
                }
            }
            if e < self.counts.len() {
                let c: u64 = self.counts[e];
                self.counts[e] = c + 1;
            }
            k = k + 1;
        }
        assert(selected@.take(k as int) =~= selected@);
        self.tokens_seen = self.tokens_seen + 1;
    }

    /// The `n` experts that were chosen most often, most often first.
    pub fn top_n(&self, n: usize) -> (r: Vec<usize>)
        ensures
            r@.len() == if n <= self.counts@.len() {
                n as nat
            } else {
                self.counts@.len()
            },
            r@.no_duplicates(),
            forall|a: int| 0 <= a < r@.len() ==> #[trigger] r@[a] < self.counts@.len(),
            forall|a: int, b: int|
                0 <= a < b < r@.len() ==> self.counts@[#[trigger] r@[a] as int]
                    >= self.counts@[#[trigger] r@[b] as int],
            forall|a: int, i: int|
                0 <= a < r@.len() && 0 <= i < self.counts@.len() && !r@.contains(i as usize)
                    ==> self.counts@[#[trigger] r@[a] as int] >= #[trigger] self.counts@[i],
    {
        let mut keys: Vec<i128> = Vec::new();
        let mut i: usize = 0;
        while i < self.counts.len()
            invariant
                i <= self.counts@.len(),
                keys@.len() == i,
                forall|k: int| 0 <= k < i ==> #[trigger] keys@[k] == self.counts@[k],
            decreases self.counts@.len() - i,
        {
            keys.push(self.counts[i] as i128);
            i = i + 1;
        }
        let all = rank_desc(&keys);
        let mut r = all;
        let ghost ranked = r@;
        r.truncate(n);
        proof {
            assert(keys@.len() <= usize::MAX);
            ranking_is_a_permutation(keys@, ranked);
            let m = r@.len() as int;
            assert(r@ =~= ranked.take(m));
            assert forall|a: int, b: int| 0 <= a < b < m implies self.counts@[#[trigger] r@[a] as int]
                >= self.counts@[#[trigger] r@[b] as int] by {
                ranking_descends(keys@, ranked, a, b);
                assert(keys@[ranked[a] as int] == self.counts@[ranked[a] as int]);
                assert(keys@[ranked[b] as int] == self.counts@[ranked[b] as int]);
            }
            assert forall|a: int, x: int|
                0 <= a < m && 0 <= x < self.counts@.len() && !r@.contains(
                    x as usize,
                ) implies self.counts@[#[trigger] r@[a] as int] >= #[trigger] self.counts@[x] by {
                assert(ranked.contains(x as usize));
                let b = choose|b: int| 0 <= b < ranked.len() && ranked[b] == x as usize;
                if b < m {
                    assert(r@[b] == x as usize);
                }
                ranking_descends(keys@, ranked, a, b);
                assert(keys@[ranked[a] as int] == self.counts@[ranked[a] as int]);
                assert(keys@[x] == self.counts@[x]);
            }
        }
        r
    }
}

/// A router of `n` rows is one of `n` experts.
pub proof fn router_rows_are_experts(n: int, hidden: usize)
    requires
        0 <= n,
        hidden > 0,
    ensures
        experts_of(n * hidden, hidden) == n,
{
    vstd::arithmetic::div_mod::lemma_div_by_multiple(n, hidden as int);
}

/// The shared experts that take part are those whose three matrices the bank holds, in
/// their order.
pub proof fn present_experts_take_part(
    bank: Map<Seq<char>, Seq<u8>>,
    layer: nat,
    upto: nat,
    n: nat,
)
    ensures
        ({
            let list = shared_experts(bank, layer, upto, n);
            &&& forall|k: int|
                0 <= k < list.len() ==> #[trigger] list[k] < upto && shared_present(
                    bank,
                    layer,
                    list[k],
                    n,
                )
            &&& forall|j: int, k: int|
                0 <= j < k < list.len() ==> #[trigger] list[j] < #[trigger] list[k]
            &&& forall|s: nat|
                s < upto && #[trigger] shared_present(bank, layer, s, n) ==> list.contains(s)
        }),
    decreases upto,
{
    if upto > 0 {
        let z = (upto - 1) as nat;
        present_experts_take_part(bank, layer, z, n);
        let before = shared_experts(bank, layer, z, n);
        let list = shared_experts(bank, layer, upto, n);
        assert forall|s: nat|
            s < upto && #[trigger] shared_present(bank, layer, s, n) implies list.contains(s) by {
            if s < z {
                let k = choose|k: int| 0 <= k < before.len() && before[k] == s;
                assert(list[k] == s);
            } else {
                assert(list[list.len() - 1] == s);
            }
        }
    }
}

/// An expert is counted as often as it was selected.
pub proof fn selections_are_counted(selected: Seq<usize>, e: usize)
    ensures
        occurrences(selected, e) == selected.to_multiset().count(e),
    decreases selected.len(),
{
    broadcast use vstd::multiset::group_multiset_axioms;
    broadcast use vstd::seq_lib::group_to_multiset_ensures;

    if selected.len() > 0 {
        selections_are_counted(selected.drop_last(), e);
        assert(selected =~= selected.drop_last().push(selected.last()));
    }
}

/// A model with more experts never uses fewer of them for a token: two at least, eight at
/// most, and never more than there are where there are two or more.
pub proof fn more_experts_use_more(n: int, m: int)
    requires
        2 <= n <= m,
    ensures
        2 <= top_k_for(n) <= top_k_for(m) <= 8,
        top_k_for(n) <= n,
{
}

/// What is selected has the best scores whatever was left out: the first pick is one that
/// no score is above.
pub proof fn first_pick_is_the_best(scores: Seq<u32>, picks: Seq<usize>, i: int)
    requires
        is_selection(scores, picks),
        0 < picks.len() <= scores.len() <= usize::MAX,
        forall|j: int| 0 <= j < scores.len() ==> float_lt(NEG_INFINITY_BITS, #[trigger] scores[j]),
        0 <= i < scores.len(),
    ensures
        !float_lt(scores[picks[0] as int], scores[i]),
        i < picks[0] ==> float_lt(scores[i], scores[picks[0] as int]),
{
    let none = picks.take(0);
    assert(next_choice(scores, none, picks[0] as int));
    assert(eligible(scores, none, i)) by {
        assert(none.len() == 0);
    }
}

} // verus!
