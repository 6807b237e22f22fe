//! Speculation by a tree of candidate continuations whose branching shrinks with
//! depth.
//!
//! The draft model and the arithmetic of probabilities are elsewhere; here
//! probabilities are the bits of single-precision numbers, compared but not
//! computed with.

use vstd::prelude::*;

use crate::float_bits::{check_lt, float_lt, rank, rank_of};
use crate::ranking::{is_ranking, rank_desc, ranking_of};

verus! {

/// The settings of a tree.
#[derive(Debug, Clone, Copy, PartialEq, Eq, Structural)]
pub struct SpecConfig {
    /// The least budget.
    pub k_min: usize,
    /// The largest budget.
    pub k_max: usize,
    /// How many levels a tree has.
    pub depth: usize,
    /// The acceptance rate to aim at, as the bits of a single-precision number.
    pub alpha_target: u32,
    /// How many rounds the acceptance rate is averaged over.
    pub alpha_window: usize,
}

/// 0.70 in single precision.
pub const ALPHA_70: u32 = 0x3F33_3333;

/// 0.75 in single precision.
pub const ALPHA_75: u32 = 0x3F40_0000;

/// 0.65 in single precision.
pub const ALPHA_65: u32 = 0x3F26_6666;

impl Default for SpecConfig {
    fn default() -> (c: SpecConfig)
        ensures
            c == (SpecConfig {
                k_min: 4,
                k_max: 16,
                depth: 2,
                alpha_target: ALPHA_70,
                alpha_window: 64,
            }),
    {
        SpecConfig { k_min: 4, k_max: 16, depth: 2, alpha_target: ALPHA_70, alpha_window: 64 }
    }
}

impl SpecConfig {
    /// A wider and deeper tree.
    pub fn high_throughput() -> (c: SpecConfig)
        ensures
            c == (SpecConfig {
                k_min: 8,
                k_max: 32,
                depth: 3,
                alpha_target: ALPHA_75,
                alpha_window: 32,
            }),
    {
        SpecConfig { k_min: 8, k_max: 32, depth: 3, alpha_target: ALPHA_75, alpha_window: 32 }
    }

    /// A small tree.
    pub fn conservative() -> (c: SpecConfig)
        ensures
            c == (SpecConfig {
                k_min: 2,
                k_max: 8,
                depth: 1,
                alpha_target: ALPHA_65,
                alpha_window: 128,
            }),
    {
        SpecConfig { k_min: 2, k_max: 8, depth: 1, alpha_target: ALPHA_65, alpha_window: 128 }
    }
}

/// A node of the tree.
#[derive(Debug)]
pub struct SpecNode {
    pub token: u32,
    /// The logarithm of the probability of the path.
    pub cumulative_log_prob: u32,
    pub depth: u8,
    /// The context and the tokens from the root to this node.
    pub path: Vec<u32>,
}

/// What a node holds.
pub struct NodeView {
    pub token: u32,
    pub cumulative_log_prob: u32,
    pub depth: u8,
    pub path: Seq<u32>,
}

impl View for SpecNode {
    type V = NodeView;

    open spec fn view(&self) -> NodeView {
        NodeView {
            token: self.token,
            cumulative_log_prob: self.cumulative_log_prob,
            depth: self.depth,
            path: self.path@,
        }
    }
}

/// What nodes hold.
pub open spec fn node_views(nodes: Seq<SpecNode>) -> Seq<NodeView> {
    nodes.map_values(|n: SpecNode| n@)
}

/// The node of a candidate after `path`.
pub open spec fn child(path: Seq<u32>, candidate: (u32, u32), depth: u8) -> NodeView {
    NodeView {
        token: candidate.0,
        cumulative_log_prob: candidate.1,
        depth,
        path: path.push(candidate.0),
    }
}

/// The nodes of the first `n` candidates after `path`.
pub open spec fn children(path: Seq<u32>, candidates: Seq<(u32, u32)>, depth: u8, n: int) -> Seq<
    NodeView,
>
    decreases n,
{
    if n <= 0 {
        Seq::empty()
    } else {
        children(path, candidates, depth, n - 1).push(child(path, candidates[n - 1], depth))
    }
}

/// `n`, or `limit` if that is less.
pub open spec fn at_most(n: int, limit: int) -> int {
    if n < limit {
        n
    } else {
        limit
    }
}

/// The nodes below the first `n` parents, for each as many as branches are
/// allowed.
pub open spec fn next_level(
    parents: Seq<Seq<u32>>,
    candidates: Seq<Vec<(u32, u32)>>,
    branches: int,
    depth: u8,
    n: int,
) -> Seq<NodeView>
    decreases n,
{
    if n <= 0 {
        Seq::empty()
    } else {
        next_level(parents, candidates, branches, depth, n - 1) + children(
            parents[n - 1],
            candidates[n - 1]@,
            depth,
            at_most(candidates[n - 1]@.len() as int, branches),
        )
    }
}

/// Keys by which more probable paths come first.
pub open spec fn path_keys(nodes: Seq<NodeView>) -> Seq<i128> {
    nodes.map_values(|n: NodeView| rank(n.cumulative_log_prob) as i128)
}

/// What a check by the master model gives.
#[derive(Debug)]
pub struct VerifyResult {
    /// The accepted tokens.
    pub accepted: Vec<u32>,
    /// The master's own token where it differs.
    pub pivot: u32,
    /// The acceptance rate of this round.
    pub alpha_sample: u32,
}

/// How many of the tokens from `from` on are accepted: those before the first
/// whose draw is not below its ratio.
pub open spec fn accepted_count(draws: Seq<u32>, ratios: Seq<u32>, from: int) -> int
    decreases draws.len() - from,
{
    if 0 <= from < draws.len() && float_lt(draws[from], ratios[from]) {
        1 + accepted_count(draws, ratios, from + 1)
    } else {
        0
    }
}

/// How many of the ratios make up the acceptance rate of a round: those of the tokens
/// that were looked at, which are the accepted ones and the first that was not.
pub open spec fn looked_at(draws: Seq<u32>, ratios: Seq<u32>) -> int {
    let n = accepted_count(draws, ratios, 0);
    if n < draws.len() {
        n + 1
    } else {
        n
    }
}

/// How many tokens are accepted.
pub fn count_accepted(draws: &Vec<u32>, ratios: &Vec<u32>) -> (n: usize)
    requires
        draws@.len() == ratios@.len(),
    ensures
        n == accepted_count(draws@, ratios@, 0),
        n <= draws@.len(),
{
    let mut n: usize = 0;
    while n < draws.len() && check_lt(draws[n], ratios[n])
        invariant
            n <= draws@.len(),
            draws@.len() == ratios@.len(),
            accepted_count(draws@, ratios@, 0) == n + accepted_count(draws@, ratios@, n as int),
        decreases draws@.len() - n,
    {
        n = n + 1;
    }
    n
}

/// How many of the ratios make up the acceptance rate of a round.
pub fn count_looked_at(draws: &Vec<u32>, ratios: &Vec<u32>) -> (n: usize)
    requires
        draws@.len() == ratios@.len(),
    ensures
        n == looked_at(draws@, ratios@),
        n <= draws@.len(),
{
    let n: usize = count_accepted(draws, ratios);
    if n < draws.len() {
        n + 1
    } else {
        n
    }
}

/// How many branches a node of this depth has.
pub open spec fn branches(budget: int, depth: int) -> int {
    if budget / (depth + 1) > 1 {
        budget / (depth + 1)
    } else {
        1
    }
}

/// `k` within the limits of the budget.
pub open spec fn within(k: int, low: int, high: int) -> int {
    if k < low {
        low
    } else if k > high {
        high
    } else {
        k
    }
}

/// The rates of the last rounds after one more.
pub open spec fn with_rate(history: Seq<u32>, rate: u32, window: int) -> Seq<u32> {
    let all = history.push(rate);
    if all.len() > window {
        all.skip(1)
    } else {
        all
    }
}

/// Expands trees and keeps their budget.
pub struct SpecStreamEngine {
    pub config: SpecConfig,
    pub budget: usize,
    pub alpha_history: Vec<u32>,
    /// The nodes of the last tree.
    pub last_nodes: Vec<SpecNode>,
    /// The paths of the last level of the tree.
    pub level: Vec<Vec<u32>>,
}

fn copy_path(path: &Vec<u32>, n: usize) -> (r: Vec<u32>)
    requires
        n <= path@.len(),
    ensures
        r@ == path@.take(n as int),
{
    let mut r: Vec<u32> = Vec::new();
    let mut i: usize = 0;
    while i < n
        invariant
            i <= n <= path@.len(),
            r@ == path@.take(i as int),
        decreases n - i,
    {
        r.push(path[i]);
        i = i + 1;
        assert(r@ =~= path@.take(i as int));
    }
    r
}

/// The paths of nodes.
pub open spec fn paths_of(nodes: Seq<NodeView>) -> Seq<Seq<u32>> {
    nodes.map_values(|n: NodeView| n.path)
}

/// The views of paths.
pub open spec fn path_views(v: Seq<Vec<u32>>) -> Seq<Seq<u32>> {
    v.map_values(|p: Vec<u32>| p@)
}

impl SpecStreamEngine {
    pub open spec fn wf(&self) -> bool {
        &&& self.config.k_min <= self.config.k_max
        &&& self.config.k_min <= self.budget <= self.config.k_max
        &&& self.alpha_history@.len() <= self.config.alpha_window
    }

    /// An engine with the least budget.
    pub fn new(config: SpecConfig) -> (e: SpecStreamEngine)
        ensures
            e.config == config,
            e.budget == config.k_min,
            e.alpha_history@ == Seq::<u32>::empty(),
            e.last_nodes@.len() == 0,
            e.level@.len() == 0,
            config.k_min <= config.k_max ==> e.wf(),
    {
        SpecStreamEngine {
            config,
            budget: config.k_min,
            alpha_history: Vec::new(),
            last_nodes: Vec::new(),
            level: Vec::new(),
        }
    }

    /// How many branches a node of this depth has.
    pub fn branches_at_depth(&self, depth: usize) -> (n: usize)
        requires
            depth < usize::MAX,
        ensures
            n == branches(self.budget as int, depth as int),
    {
        let n: usize = self.budget / (depth + 1);
        if n > 1 {
            n
        } else {
            1
        }
    }

    fn push_children(
        &mut self,
        fresh: &mut Vec<Vec<u32>>,
        path: &Vec<u32>,
        candidates: &Vec<(u32, u32)>,
        depth: u8,
        limit: usize,
    )
        ensures
            node_views(final(self).last_nodes@) == node_views(old(self).last_nodes@) + children(
                path@,
                candidates@,
                depth,
                at_most(candidates@.len() as int, limit as int),
            ),
            path_views(final(fresh)@) == path_views(old(fresh)@) + paths_of(
                children(
                    path@,
                    candidates@,
                    depth,
                    at_most(candidates@.len() as int, limit as int),
                ),
            ),
            final(self).config == old(self).config,
            final(self).budget == old(self).budget,
            final(self).alpha_history == old(self).alpha_history,
            final(self).level == old(self).level,
    {
        let n: usize = if candidates.len() < limit {
            candidates.len()
        } else {
            limit
        };
        let ghost nodes = node_views(self.last_nodes@);
        let ghost paths = path_views(fresh@);
        let mut i: usize = 0;
        proof {
            let none = children(path@, candidates@, depth, 0);
            assert(nodes + none =~= nodes);
            assert(paths + paths_of(none) =~= paths);
        }
        while i < n
            invariant
                i <= n <= candidates@.len(),
                node_views(self.last_nodes@) == nodes + children(
                    path@,
                    candidates@,
                    depth,
                    i as int,
                ),
                path_views(fresh@) == paths + paths_of(
                    children(path@, candidates@, depth, i as int),
                ),
                self.config == old(self).config,
                self.budget == old(self).budget,
                self.alpha_history == old(self).alpha_history,
                self.level == old(self).level,
            decreases n - i,
        {
            let (token, log_prob) = candidates[i];
            let ghost before = children(path@, candidates@, depth, i as int);
            let ghost after = children(path@, candidates@, depth, i + 1);
            let ghost old_nodes = self.last_nodes@;
            let ghost old_fresh = fresh@;
            let mut p = copy_path(path, path.len());
            assert(p@ =~= path@);
            p.push(token);
            let mut q = copy_path(path, path.len());
            q.push(token);
            assert(q@ =~= path@.push(token));
            let node = SpecNode { token, cumulative_log_prob: log_prob, depth, path: p };
            self.last_nodes.push(node);
            fresh.push(q);
            i = i + 1;
            proof {
                let c = child(path@, candidates@[i - 1], depth);
                assert(node@ == c);
                assert(after == before.push(c));
                assert(node_views(self.last_nodes@) =~= node_views(old_nodes).push(c));
                assert(node_views(self.last_nodes@) =~= nodes + after);
                assert(path_views(fresh@) =~= path_views(old_fresh).push(c.path));
                assert(paths_of(after) =~= paths_of(before).push(c.path));
                assert(path_views(fresh@) =~= paths + paths_of(after));
            }
        }
    }

    /// Begins a tree: the first level holds the best candidates after the
    /// context, as many as the budget.
    pub fn begin(&mut self, context: &Vec<u32>, candidates: &Vec<(u32, u32)>)
        ensures
            node_views(final(self).last_nodes@) == children(
                context@,
                candidates@,
                0,
                at_most(candidates@.len() as int, branches(old(self).budget as int, 0)),
            ),
            path_views(final(self).level@) == paths_of(node_views(final(self).last_nodes@)),
            final(self).config == old(self).config,
            final(self).budget == old(self).budget,
            final(self).alpha_history == old(self).alpha_history,
    {
        let limit: usize = self.branches_at_depth(0);
        self.last_nodes = Vec::new();
        let mut fresh: Vec<Vec<u32>> = Vec::new();
        self.push_children(&mut fresh, context, candidates, 0, limit);
        self.level = fresh;
        proof {
            let made = children(
                context@,
                candidates@,
                0,
                at_most(candidates@.len() as int, limit as int),
            );
            assert(node_views(self.last_nodes@) =~= made);
            assert(path_views(self.level@) =~= paths_of(made));
        }
    }

    /// Adds a level: below each node of the last one its best candidates, as
    /// many as branches are allowed at this depth. A candidate comes with the
    /// logarithm of the probability of its whole path.
    pub fn extend(&mut self, depth: usize, candidates: &Vec<Vec<(u32, u32)>>)
        requires
            depth < usize::MAX,
            candidates@.len() == old(self).level@.len(),
        ensures
            ({
                let fresh = next_level(
                    path_views(old(self).level@),
                    candidates@,
                    branches(old(self).budget as int, depth as int),
                    depth as u8,
                    candidates@.len() as int,
                );
                &&& node_views(final(self).last_nodes@) == node_views(old(self).last_nodes@) + fresh
                &&& path_views(final(self).level@) == paths_of(fresh)
            }),
            final(self).config == old(self).config,
            final(self).budget == old(self).budget,
            final(self).alpha_history == old(self).alpha_history,
    {
        let limit: usize = self.branches_at_depth(depth);
        let ghost parents = path_views(self.level@);
        let ghost nodes = node_views(self.last_nodes@);
        let mut level: Vec<Vec<u32>> = Vec::new();
        std::mem::swap(&mut level, &mut self.level);
        let mut fresh: Vec<Vec<u32>> = Vec::new();
        let mut i: usize = 0;
        proof {
            let none = next_level(parents, candidates@, limit as int, depth as u8, 0);
            assert(nodes + none =~= nodes);
            assert(path_views(fresh@) =~= paths_of(none));
        }
        while i < level.len()
            invariant
                i <= level@.len(),
                candidates@.len() == level@.len(),
                parents == path_views(level@),
                node_views(self.last_nodes@) == nodes + next_level(
                    parents,
                    candidates@,
                    limit as int,
                    depth as u8,
                    i as int,
                ),
                path_views(fresh@) == paths_of(
                    next_level(parents, candidates@, limit as int, depth as u8, i as int),
                ),
                self.config == old(self).config,
                self.budget == old(self).budget,
                self.alpha_history == old(self).alpha_history,
            decreases level@.len() - i,
        {
            let ghost before = next_level(
                parents,
                candidates@,
                limit as int,
                depth as u8,
                i as int,
            );
            let ghost after = next_level(parents, candidates@, limit as int, depth as u8, i + 1);
            self.push_children(&mut fresh, &level[i], &candidates[i], depth as u8, limit);
            proof {
                let more = children(
                    parents[i as int],
                    candidates@[i as int]@,
                    depth as u8,
                    at_most(candidates@[i as int]@.len() as int, limit as int),
                );
                assert(parents[i as int] == level@[i as int]@);
                assert(after == before + more);
                assert(nodes + before + more =~= nodes + after);
                assert(paths_of(before) + paths_of(more) =~= paths_of(after));
            }
            i = i + 1;
        }
        self.level = fresh;
    }

    /// Ends a tree: the most probable paths come first.
    pub fn finish(&mut self)
        ensures
            ({
                let nodes = node_views(old(self).last_nodes@);
                let order = ranking_of(path_keys(nodes));
                &&& is_ranking(path_keys(nodes), order)
                &&& node_views(final(self).last_nodes@) == order.map_values(
                    |i: usize| nodes[i as int],
                )
            }),
            final(self).config == old(self).config,
            final(self).budget == old(self).budget,
            final(self).alpha_history == old(self).alpha_history,
            final(self).level == old(self).level,
    {
        let ghost nodes = node_views(self.last_nodes@);
        let mut keys: Vec<i128> = Vec::new();
        let mut i: usize = 0;
        while i < self.last_nodes.len()
            invariant
                i <= self.last_nodes@.len(),
                keys@.len() == i,
                nodes == node_views(self.last_nodes@),
                forall|j: int| 0 <= j < i ==> #[trigger] keys@[j] == path_keys(nodes)[j],
                *self == *old(self),
            decreases self.last_nodes@.len() - i,
        {
            assert(nodes[i as int] == self.last_nodes@[i as int]@);
            keys.push(rank_of(self.last_nodes[i].cumulative_log_prob) as i128);
            i = i + 1;
        }
        assert(keys@ =~= path_keys(nodes));
        let order = rank_desc(&keys);
        let mut sorted: Vec<SpecNode> = Vec::new();
        let mut k: usize = 0;
        while k < order.len()
            invariant
                k <= order@.len(),
                sorted@.len() == k,
                nodes == node_views(self.last_nodes@),
                order@.len() == nodes.len(),
                is_ranking(path_keys(nodes), order@),
                forall|j: int| 0 <= j < k ==> (#[trigger] sorted@[j])@ == nodes[order@[j] as int],
                *self == *old(self),
            decreases order@.len() - k,
        {
            assert(0 <= order@[k as int] < nodes.len());
            let n = &self.last_nodes[order[k]];
            let path = copy_path(&n.path, n.path.len());
            assert(path@ =~= n.path@);
            sorted.push(
                SpecNode {
                    token: n.token,
                    cumulative_log_prob: n.cumulative_log_prob,
                    depth: n.depth,
                    path,
                },
            );
            k = k + 1;
        }
        assert(node_views(sorted@) =~= order@.map_values(|i: usize| nodes[i as int]));
        self.last_nodes = sorted;
    }

    /// Accepts the tokens before the first whose draw is not below its ratio, and
    /// records the acceptance rate of the round.
    pub fn verify(
        &mut self,
        draft_tokens: &Vec<u32>,
        draws: &Vec<u32>,
        ratios: &Vec<u32>,
        pivot: u32,
        alpha_sample: u32,
    ) -> (r: VerifyResult)
        requires
            old(self).wf(),
            draws@.len() == draft_tokens@.len(),
            ratios@.len() == draft_tokens@.len(),
        ensures
            final(self).wf(),
            r.accepted@ == draft_tokens@.take(accepted_count(draws@, ratios@, 0)),
            r.pivot == pivot,
            r.alpha_sample == alpha_sample,
            final(self).alpha_history@ == with_rate(
                old(self).alpha_history@,
                alpha_sample,
                old(self).config.alpha_window as int,
            ),
            final(self).budget == old(self).budget,
            final(self).config == old(self).config,
            final(self).last_nodes == old(self).last_nodes,
            final(self).level == old(self).level,
    {
        let n: usize = count_accepted(draws, ratios);
        let accepted = copy_path(draft_tokens, n);
        self.record_alpha(alpha_sample);
        VerifyResult { accepted, pivot, alpha_sample }
    }

    /// Records the acceptance rate of a round.
    pub fn record_alpha(&mut self, alpha: u32)
        requires
            old(self).wf(),
        ensures
            final(self).wf(),
            final(self).alpha_history@ == with_rate(
                old(self).alpha_history@,
                alpha,
                old(self).config.alpha_window as int,
            ),
            final(self).budget == old(self).budget,
            final(self).config == old(self).config,
            final(self).last_nodes == old(self).last_nodes,
            final(self).level == old(self).level,
    {
        self.alpha_history.push(alpha);
        if self.alpha_history.len() > self.config.alpha_window {
            let ghost all = self.alpha_history@;
            let _ = self.alpha_history.remove(0);
            assert(self.alpha_history@ =~= all.skip(1));
        }
    }

    /// Takes the budget that the rates of the last rounds ask for, within its
    /// limits. `rounded` is that budget.
    pub fn adapt_budget(&mut self, rounded: usize)
        requires
            old(self).wf(),
        ensures
            final(self).wf(),
            final(self).budget == within(
                rounded as int,
                old(self).config.k_min as int,
                old(self).config.k_max as int,
            ),
            final(self).alpha_history == old(self).alpha_history,
            final(self).config == old(self).config,
            final(self).last_nodes == old(self).last_nodes,
            final(self).level == old(self).level,
    {
        self.budget = if rounded < self.config.k_min {
            self.config.k_min
        } else if rounded > self.config.k_max {
            self.config.k_max
        } else {
            rounded
        };
    }

    /// The budget.
    pub fn current_budget(&self) -> (n: usize)
        ensures
            n == self.budget,
    {
        self.budget
    }
}

/// The bits of a draw: 53 of them, a function of the token and its position.
pub open spec fn draw_bits(token: u32, pos: u64) -> u64 {
    let x0 = (token as u64).wrapping_mul(6364136223846793005).wrapping_add(
        pos.wrapping_mul(1442695040888963407),
    );
    let x1 = x0 ^ (x0 >> 33);
    let x2 = x1.wrapping_mul(0xff51afd7ed558ccd);
    let x3 = x2 ^ (x2 >> 33);
    let x4 = x3.wrapping_mul(0xc4ceb9fe1a85ec53);
    let x5 = x4 ^ (x4 >> 33);
    x5 >> 11
}

/// The bits of a draw. The draw is this number divided by two to the power 53.
pub fn deterministic_uniform(token: u32, pos: u64) -> (u: u64)
    ensures
        u == draw_bits(token, pos),
        u < 0x20_0000_0000_0000,
{
    let x0: u64 = (token as u64).wrapping_mul(6364136223846793005).wrapping_add(
        pos.wrapping_mul(1442695040888963407),
    );
    let x1: u64 = x0 ^ (x0 >> 33);
    let x2: u64 = x1.wrapping_mul(0xff51afd7ed558ccd);
    let x3: u64 = x2 ^ (x2 >> 33);
    let x4: u64 = x3.wrapping_mul(0xc4ceb9fe1a85ec53);
    let x5: u64 = x4 ^ (x4 >> 33);
    assert(x5 >> 11 < 0x20_0000_0000_0000) by (bit_vector);
    x5 >> 11
}

// ─── Laws ────────────────────────────────────────────────────────────────────

/// A level has at most as many nodes as its parents have branches.
pub proof fn levels_are_bounded(
    parents: Seq<Seq<u32>>,
    candidates: Seq<Vec<(u32, u32)>>,
    branches: int,
    depth: u8,
    n: int,
)
    requires
        0 <= n <= parents.len(),
        n <= candidates.len(),
        0 <= branches,
    ensures
        next_level(parents, candidates, branches, depth, n).len() <= n * branches,
    decreases n,
{
    if n > 0 {
        levels_are_bounded(parents, candidates, branches, depth, n - 1);
        let m = at_most(candidates[n - 1]@.len() as int, branches);
        children_count(parents[n - 1], candidates[n - 1]@, depth, m);
        assert(n * branches == (n - 1) * branches + branches) by (nonlinear_arith);
    } else {
        assert(n * branches == 0) by (nonlinear_arith)
            requires
                n == 0,
        ;
    }
}

/// There is one node for each candidate.
proof fn children_count(path: Seq<u32>, candidates: Seq<(u32, u32)>, depth: u8, n: int)
    requires
        0 <= n,
    ensures
        children(path, candidates, depth, n).len() == n,
    decreases n,
{
    if n > 0 {
        children_count(path, candidates, depth, n - 1);
    }
}

/// How many nodes the first `p` parents get: each as many as it has candidates, up to
/// `branches`.
pub open spec fn nodes_before(
    candidates: Seq<Vec<(u32, u32)>>,
    branches: int,
    p: int,
) -> int
    decreases p,
{
    if p <= 0 {
        0
    } else {
        nodes_before(candidates, branches, p - 1) + if candidates[p - 1]@.len() < branches {
            candidates[p - 1]@.len() as int
        } else {
            branches
        }
    }
}

/// What a level is. Every parent gets a node for each of its first candidates, up to
/// `branches`: with the token and the probability of the candidate, and with the path of
/// this parent followed by the token. The nodes stand in the order of the parents and
/// their candidates.
pub proof fn nodes_hang_below_their_parents(
    parents: Seq<Seq<u32>>,
    candidates: Seq<Vec<(u32, u32)>>,
    branches: int,
    depth: u8,
    n: int,
    p: int,
    c: int,
)
    requires
        0 <= p < n <= parents.len(),
        parents.len() == candidates.len(),
        0 <= c < candidates[p]@.len(),
        c < branches,
    ensures
        ({
            let level = next_level(parents, candidates, branches, depth, n);
            let k = nodes_before(candidates, branches, p) + c;
            &&& 0 <= k < level.len()
            &&& level[k].token == candidates[p]@[c].0
            &&& level[k].cumulative_log_prob == candidates[p]@[c].1
            &&& level[k].depth == depth
            &&& level[k].path == parents[p].push(candidates[p]@[c].0)
        }),
    decreases n,
{
    let m = at_most(candidates[n - 1]@.len() as int, branches);
    level_size(parents, candidates, branches, depth, n - 1);
    children_count(parents[n - 1], candidates[n - 1]@, depth, m);
    if p < n - 1 {
        nodes_hang_below_their_parents(parents, candidates, branches, depth, n - 1, p, c);
    } else {
        child_at(parents[p], candidates[p]@, depth, m, c);
    }
}

/// A level holds no other nodes: each of its nodes is that of some parent and one of its
/// first candidates.
pub proof fn levels_hold_nothing_else(
    parents: Seq<Seq<u32>>,
    candidates: Seq<Vec<(u32, u32)>>,
    branches: int,
    depth: u8,
    n: int,
    k: int,
) -> (r: (int, int))
    requires
        0 <= n <= parents.len(),
        parents.len() == candidates.len(),
        0 <= branches,
        0 <= k < next_level(parents, candidates, branches, depth, n).len(),
    ensures
        0 <= r.0 < n,
        0 <= r.1 < candidates[r.0]@.len(),
        r.1 < branches,
        k == nodes_before(candidates, branches, r.0) + r.1,
        next_level(parents, candidates, branches, depth, n)[k].path == parents[r.0].push(
            candidates[r.0]@[r.1].0,
        ),
    decreases n,
{
    let m = at_most(candidates[n - 1]@.len() as int, branches);
    level_size(parents, candidates, branches, depth, n - 1);
    children_count(parents[n - 1], candidates[n - 1]@, depth, m);
    let before = nodes_before(candidates, branches, n - 1);
    if k < before {
        levels_hold_nothing_else(parents, candidates, branches, depth, n - 1, k)
    } else {
        nodes_hang_below_their_parents(
            parents,
            candidates,
            branches,
            depth,
            n,
            n - 1,
            k - before,
        );
        (n - 1, k - before)
    }
}

proof fn level_size(
    parents: Seq<Seq<u32>>,
    candidates: Seq<Vec<(u32, u32)>>,
    branches: int,
    depth: u8,
    n: int,
)
    requires
        0 <= n <= parents.len(),
        parents.len() == candidates.len(),
        0 <= branches,
    ensures
        next_level(parents, candidates, branches, depth, n).len() == nodes_before(
            candidates,
            branches,
            n,
        ),
    decreases n,
{
    if n > 0 {
        level_size(parents, candidates, branches, depth, n - 1);
        children_count(
            parents[n - 1],
            candidates[n - 1]@,
            depth,
            at_most(candidates[n - 1]@.len() as int, branches),
        );
    }
}

/// The node of a candidate has its token and its probability, and the path followed by
/// the token.
pub proof fn child_at(path: Seq<u32>, candidates: Seq<(u32, u32)>, depth: u8, n: int, i: int)
    requires
        0 <= i < n <= candidates.len(),
    ensures
        children(path, candidates, depth, n).len() == n,
        children(path, candidates, depth, n)[i].token == candidates[i].0,
        children(path, candidates, depth, n)[i].cumulative_log_prob == candidates[i].1,
        children(path, candidates, depth, n)[i].depth == depth,
        children(path, candidates, depth, n)[i].path == path.push(candidates[i].0),
    decreases n,
{
    children_count(path, candidates, depth, n - 1);
    if i < n - 1 {
        child_at(path, candidates, depth, n - 1, i);
    }
}

/// A node has as many branches as the budget allows to all levels up to its own
/// together, and at least one.
pub proof fn branches_share_the_budget(budget: int, depth: int)
    requires
        0 <= budget,
        0 <= depth,
    ensures
        branches(budget, depth) >= 1,
        budget >= depth + 1 ==> branches(budget, depth) * (depth + 1) <= budget < (branches(
            budget,
            depth,
        ) + 1) * (depth + 1),
        budget < depth + 1 ==> branches(budget, depth) == 1,
{
    let q = budget / (depth + 1);
    assert(q * (depth + 1) <= budget < (q + 1) * (depth + 1)) by (nonlinear_arith)
        requires
            q == budget / (depth + 1),
            0 <= budget,
            0 <= depth,
    ;
    if budget < depth + 1 {
        assert(q == 0) by (nonlinear_arith)
            requires
                q == budget / (depth + 1),
                0 <= budget < depth + 1,
        ;
    } else {
        assert(q >= 1) by (nonlinear_arith)
            requires
                q == budget / (depth + 1),
                budget >= depth + 1 > 0,
        ;
    }
}

/// Of the rates of all rounds the last `window` are kept, in their order.
pub proof fn latest_rates_are_kept(history: Seq<u32>, rate: u32, window: int)
    requires
        history.len() <= window,
    ensures
        ({
            let all = history.push(rate);
            let kept = with_rate(history, rate, window);
            &&& kept.len() == if all.len() <= window {
                all.len() as int
            } else {
                window
            }
            &&& kept == all.subrange(all.len() - kept.len(), all.len() as int)
        }),
{
    let all = history.push(rate);
    let kept = with_rate(history, rate, window);
    assert(kept =~= all.subrange(all.len() - kept.len(), all.len() as int));
}

/// Branching shrinks with depth and never stops.
pub proof fn branching_tapers(budget: int, d: int, e: int)
    requires
        0 <= budget,
        0 <= d <= e,
    ensures
        branches(budget, e) <= branches(budget, d),
        1 <= branches(budget, e),
{
    assert(budget / (e + 1) <= budget / (d + 1)) by (nonlinear_arith)
        requires
            0 <= budget,
            0 <= d <= e,
    ;
}

/// What is accepted is the longest run of tokens that pass.
pub proof fn accepted_is_the_longest_run(draws: Seq<u32>, ratios: Seq<u32>, from: int)
    requires
        0 <= from <= draws.len(),
        draws.len() == ratios.len(),
    ensures
        ({
            let n = accepted_count(draws, ratios, from);
            &&& 0 <= n <= draws.len() - from
            &&& forall|i: int| from <= i < from + n ==> float_lt(#[trigger] draws[i], ratios[i])
            &&& from + n < draws.len() ==> !float_lt(draws[from + n], ratios[from + n])
        }),
    decreases draws.len() - from,
{
    if from < draws.len() && float_lt(draws[from], ratios[from]) {
        accepted_is_the_longest_run(draws, ratios, from + 1);
    }
}

/// The tokens that are looked at are those that were accepted and, where one was refused,
/// that one: everything before the last of them was accepted, and nothing behind it counts.
pub proof fn checks_end_at_the_first_refusal(draws: Seq<u32>, ratios: Seq<u32>)
    requires
        draws.len() == ratios.len(),
    ensures
        ({
            let n = looked_at(draws, ratios);
            &&& 0 <= n <= draws.len()
            &&& draws.len() > 0 ==> n > 0
            &&& forall|i: int| 0 <= i < n - 1 ==> float_lt(#[trigger] draws[i], ratios[i])
            &&& n < draws.len() ==> !float_lt(draws[n - 1], ratios[n - 1])
        }),
{
    accepted_is_the_longest_run(draws, ratios, 0);
}

/// The budget is kept within its limits, and a number that is within them is kept as it is.
pub proof fn budgets_stay_within_limits(k: int, low: int, high: int)
    requires
        low <= high,
    ensures
        low <= within(k, low, high) <= high,
        low <= k <= high ==> within(k, low, high) == k,
        k <= low ==> within(k, low, high) == low,
        k >= high ==> within(k, low, high) == high,
{
}

} // verus!
