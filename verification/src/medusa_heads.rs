//! Trees of candidate tokens from several prediction heads.

use vstd::prelude::*;

verus! {

/// A tree stops growing when it has more tokens than this.
pub const MAX_TREE: usize = 1000;

/// Which positions attention may see.
#[derive(Debug)]
pub struct AnchorMask {
    pub ldb_positions: Vec<usize>,
    pub visibility: Vec<bool>,
}

impl AnchorMask {
    /// Every position is visible.
    pub fn new(total_positions: usize) -> (m: AnchorMask)
        ensures
            m.ldb_positions@ == Seq::<usize>::empty(),
            m.visibility@ == Seq::new(total_positions as nat, |i: int| true),
    {
        let visibility: Vec<bool> = vec![true; total_positions];
        assert(visibility@ =~= Seq::new(total_positions as nat, |i: int| true));
        AnchorMask { ldb_positions: Vec::new(), visibility }
    }
}

/// Candidate tokens, each with the index of its parent.
#[derive(Debug)]
pub struct CandidateTree {
    pub tokens: Vec<u32>,
    pub parent_indices: Vec<Option<usize>>,
}

/// A head that predicts the token `offset` places ahead.
#[derive(Debug, Clone, Copy, PartialEq, Eq, Structural)]
pub struct MedusaHead {
    pub offset: usize,
}

/// The predictions of a head.
pub open spec fn predictions(offset: usize, base: u32, top_k: int) -> Seq<u32> {
    Seq::new(top_k as nat, |i: int| (base + (offset as u32) * 10 + i) as u32)
}

/// The predictions of a head can be counted in 32 bits.
pub open spec fn countable(offset: usize, base: u32, top_k: int) -> bool {
    base + (offset as u32) * 10 + top_k <= u32::MAX
}

impl MedusaHead {
    /// A head.
    pub fn new(offset: usize) -> (h: MedusaHead)
        ensures
            h.offset == offset,
    {
        MedusaHead { offset }
    }

    /// The head's predictions, given what the context adds to them.
    pub fn predict(&self, base: u32, top_k: usize) -> (r: Vec<u32>)
        requires
            countable(self.offset, base, top_k as int),
        ensures
            r@ == predictions(self.offset, base, top_k as int),
    {
        let first: u32 = base + (self.offset as u32) * 10;
        let mut r: Vec<u32> = Vec::new();
        let mut i: usize = 0;
        while i < top_k
            invariant
                first == base + (self.offset as u32) * 10,
                first + top_k <= u32::MAX,
                i <= top_k,
                r@.len() == i,
                forall|j: int|
                    0 <= j < i ==> #[trigger] r@[j] == predictions(
                        self.offset,
                        base,
                        top_k as int,
                    )[j],
            decreases top_k - i,
        {
            r.push(first + i as u32);
            i = i + 1;
        }
        assert(r@ =~= predictions(self.offset, base, top_k as int));
        r
    }
}

/// A tree that grows, with its last level.
pub struct Growth {
    pub tokens: Seq<u32>,
    pub parents: Seq<Option<usize>>,
    pub level_start: int,
    pub level_end: int,
}

/// `tokens` once for each parent from `from` up to `to`.
pub open spec fn repeated(tokens: Seq<u32>, from: int, to: int) -> Seq<u32>
    decreases to - from,
{
    if from >= to {
        Seq::empty()
    } else {
        repeated(tokens, from, to - 1) + tokens
    }
}

/// Each parent from `from` up to `to`, `k` times.
pub open spec fn repeated_parents(k: int, from: int, to: int) -> Seq<Option<usize>>
    decreases to - from,
{
    if from >= to {
        Seq::empty()
    } else {
        repeated_parents(k, from, to - 1) + Seq::new(k as nat, |i: int| Some((to - 1) as usize))
    }
}

impl Growth {
    /// No token yet.
    pub open spec fn start() -> Growth {
        Growth { tokens: Seq::empty(), parents: Seq::empty(), level_start: 0, level_end: 0 }
    }

    /// The tree with the predictions of one more head: below nothing for the
    /// first head, and below each token of the last level for the others.
    pub open spec fn grown(self, preds: Seq<u32>, first: bool) -> Growth {
        let tokens = if first {
            self.tokens + preds
        } else {
            self.tokens + repeated(preds, self.level_start, self.level_end)
        };
        Growth {
            tokens,
            parents: if first {
                self.parents + Seq::new(preds.len(), |i: int| None)
            } else {
                self.parents + repeated_parents(
                    preds.len() as int,
                    self.level_start,
                    self.level_end,
                )
            },
            level_start: self.tokens.len() as int,
            level_end: tokens.len() as int,
        }
    }
}

/// The tree of the first `n` heads. It stops growing when it is large.
pub open spec fn tree(heads: Seq<MedusaHead>, base: u32, top_k: int, n: int) -> Growth
    decreases n,
{
    if n <= 0 {
        Growth::start()
    } else {
        let before = tree(heads, base, top_k, n - 1);
        if before.tokens.len() > MAX_TREE {
            before
        } else {
            before.grown(predictions(heads[n - 1].offset, base, top_k), n == 1)
        }
    }
}

/// Every token's parent stands before it.
pub open spec fn parents_first(parents: Seq<Option<usize>>) -> bool {
    forall|i: int|
        0 <= i < parents.len() ==> match #[trigger] parents[i] {
            Some(p) => p < i,
            None => true,
        }
}

/// Heads, and what anchors their predictions.
pub struct AnchoredMedusa {
    pub heads: Vec<MedusaHead>,
    pub attention_mask: AnchorMask,
    /// Embeddings as the bits of single-precision numbers.
    pub anchor_embeddings: Vec<Vec<u32>>,
}

impl AnchoredMedusa {
    /// Heads for the next `num_heads` places.
    pub fn new(num_heads: usize) -> (m: AnchoredMedusa)
        requires
            num_heads < usize::MAX,
        ensures
            m.heads@ == Seq::new(num_heads as nat, |i: int| MedusaHead { offset: (i + 1) as usize }),
            m.attention_mask.ldb_positions@ == Seq::<usize>::empty(),
            m.attention_mask.visibility@ == Seq::<bool>::empty(),
            m.anchor_embeddings@.len() == 0,
    {
        let mut heads: Vec<MedusaHead> = Vec::new();
        let mut i: usize = 0;
        while i < num_heads
            invariant
                num_heads < usize::MAX,
                i <= num_heads,
                heads@.len() == i,
                forall|j: int| 0 <= j < i ==> (#[trigger] heads@[j]).offset == j + 1,
            decreases num_heads - i,
        {
            heads.push(MedusaHead::new(i + 1));
            i = i + 1;
        }
        assert(heads@ =~= Seq::new(
            num_heads as nat,
            |i: int| MedusaHead { offset: (i + 1) as usize },
        ));
        let attention_mask = AnchorMask::new(0);
        assert(attention_mask.visibility@ =~= Seq::<bool>::empty());
        AnchoredMedusa { heads, attention_mask, anchor_embeddings: Vec::new() }
    }

    /// Anchors the predictions to search results. Every result gets a position
    /// in the mask.
    pub fn anchor_from_lance(&mut self, embeddings: Vec<Vec<u32>>)
        requires
            old(self).attention_mask.ldb_positions@.len() + embeddings@.len() <= usize::MAX,
        ensures
            final(self).heads == old(self).heads,
            final(self).attention_mask.visibility == old(self).attention_mask.visibility,
            final(self).anchor_embeddings == embeddings,
            final(self).attention_mask.ldb_positions@ == old(self).attention_mask.ldb_positions@
                + Seq::new(
                embeddings@.len(),
                |i: int| (old(self).attention_mask.ldb_positions@.len() + i) as usize,
            ),
    {
        let n: usize = embeddings.len();
        let ghost before = self.attention_mask.ldb_positions@;
        let mut i: usize = 0;
        assert(self.attention_mask.ldb_positions@ =~= before + Seq::new(
            0,
            |k: int| (before.len() + k) as usize,
        ));
        while i < n
            invariant
                i <= n,
                before.len() + n <= usize::MAX,
                self.heads == old(self).heads,
                self.attention_mask.visibility == old(self).attention_mask.visibility,
                self.attention_mask.ldb_positions@ == before + Seq::new(
                    i as nat,
                    |k: int| (before.len() + k) as usize,
                ),
            decreases n - i,
        {
            let at: usize = self.attention_mask.ldb_positions.len();
            self.attention_mask.ldb_positions.push(at);
            i = i + 1;
            assert(self.attention_mask.ldb_positions@ =~= before + Seq::new(
                i as nat,
                |k: int| (before.len() + k) as usize,
            ));
        }
        self.anchor_embeddings = embeddings;
    }

    /// The tree of candidates of all heads, given what the anchors add to every
    /// prediction.
    pub fn generate_anchored_tree(&self, base: u32, top_k: usize) -> (t: CandidateTree)
        requires
            forall|i: int|
                0 <= i < self.heads@.len() ==> countable(
                    (#[trigger] self.heads@[i]).offset,
                    base,
                    top_k as int,
                ),
        ensures
            ({
                let g = tree(self.heads@, base, top_k as int, self.heads@.len() as int);
                &&& t.tokens@ == g.tokens
                &&& t.parent_indices@ == g.parents
                &&& t.tokens@.len() == t.parent_indices@.len()
                &&& parents_first(t.parent_indices@)
            }),
    {
        let mut tokens: Vec<u32> = Vec::new();
        let mut parents: Vec<Option<usize>> = Vec::new();
        let mut level_start: usize = 0;
        let mut level_end: usize = 0;
        let mut n: usize = 0;
        while n < self.heads.len() && tokens.len() <= MAX_TREE
            invariant
                forall|i: int|
                    0 <= i < self.heads@.len() ==> countable(
                        (#[trigger] self.heads@[i]).offset,
                        base,
                        top_k as int,
                    ),
                n <= self.heads@.len(),
                level_start <= level_end == tokens@.len(),
                (Growth {
                    tokens: tokens@,
                    parents: parents@,
                    level_start: level_start as int,
                    level_end: level_end as int,
                }) == tree(self.heads@, base, top_k as int, n as int),
                tokens@.len() == parents@.len(),
                parents_first(parents@),
            decreases self.heads@.len() - n,
        {
            let ghost g = tree(self.heads@, base, top_k as int, n as int);
            let preds = self.heads[n].predict(base, top_k);
            let current_start: usize = tokens.len();
            if n == 0 {
                push_level(&mut tokens, &mut parents, &preds, None);
            } else {
                let mut p: usize = level_start;
                proof {
                    assert(g.tokens + repeated(preds@, level_start as int, level_start as int)
                        =~= g.tokens);
                    assert(g.parents + repeated_parents(
                        preds@.len() as int,
                        level_start as int,
                        level_start as int,
                    ) =~= g.parents);
                }
                while p < level_end
                    invariant
                        level_start <= p <= level_end,
                        level_end == current_start,
                        current_start <= tokens@.len(),
                        tokens@ == g.tokens + repeated(preds@, level_start as int, p as int),
                        parents@ == g.parents + repeated_parents(
                            preds@.len() as int,
                            level_start as int,
                            p as int,
                        ),
                        tokens@.len() == parents@.len(),
                        parents_first(parents@),
                    decreases level_end - p,
                {
                    push_level(&mut tokens, &mut parents, &preds, Some(p));
                    proof {
                        let k = preds@.len() as int;
                        let a = repeated(preds@, level_start as int, p as int);
                        let b = repeated_parents(k, level_start as int, p as int);
                        assert(g.tokens + a + preds@ =~= g.tokens + (a + preds@));
                        let more = Seq::new(k as nat, |i: int| Some(p));
                        assert(g.parents + b + more =~= g.parents + (b + more));
                        assert(repeated(preds@, level_start as int, p + 1) == a + preds@);
                        assert(repeated_parents(k, level_start as int, p + 1) =~= b + more);
                    }
                    p = p + 1;
                }
            }
            level_start = current_start;
            level_end = tokens.len();
            n = n + 1;
        }
        proof {
            tree_stays(self.heads@, base, top_k as int, n as int, self.heads@.len() as int);
        }
        CandidateTree { tokens, parent_indices: parents }
    }
}

fn push_level(
    tokens: &mut Vec<u32>,
    parents: &mut Vec<Option<usize>>,
    preds: &Vec<u32>,
    parent: Option<usize>,
)
    requires
        old(tokens)@.len() == old(parents)@.len(),
        parents_first(old(parents)@),
        parent is Some ==> parent->0 < old(tokens)@.len(),
    ensures
        final(tokens)@ == old(tokens)@ + preds@,
        final(parents)@ == old(parents)@ + Seq::new(preds@.len(), |i: int| parent),
        final(tokens)@.len() == final(parents)@.len(),
        parents_first(final(parents)@),
{
    let ghost t = tokens@;
    let ghost q = parents@;
    let mut i: usize = 0;
    assert(t + preds@.take(0) =~= t);
    assert(q + Seq::new(0, |k: int| parent) =~= q);
    while i < preds.len()
        invariant
            i <= preds@.len(),
            t.len() == q.len(),
            tokens@ == t + preds@.take(i as int),
            parents@ == q + Seq::new(i as nat, |k: int| parent),
            parents_first(parents@),
            parent is Some ==> parent->0 < t.len(),
        decreases preds@.len() - i,
    {
        tokens.push(preds[i]);
        parents.push(parent);
        i = i + 1;
        assert(tokens@ =~= t + preds@.take(i as int));
        assert(parents@ =~= q + Seq::new(i as nat, |k: int| parent));
    }
    assert(preds@.take(i as int) =~= preds@);
}

/// A tree that has all heads or is large does not change any more.
proof fn tree_stays(heads: Seq<MedusaHead>, base: u32, top_k: int, n: int, m: int)
    requires
        0 <= n <= m,
        n == m || tree(heads, base, top_k, n).tokens.len() > MAX_TREE,
    ensures
        tree(heads, base, top_k, m) == tree(heads, base, top_k, n),
    decreases m - n,
{
    if n < m {
        tree_stays(heads, base, top_k, n, m - 1);
    }
}

/// A new level hangs every prediction below every node of the level before it. The result
/// is where prediction `i` below node `p` stands.
pub proof fn every_leaf_gets_every_prediction(g: Growth, preds: Seq<u32>, p: int, i: int) -> (at:
    int)
    requires
        g.tokens.len() == g.parents.len(),
        0 <= g.level_start <= p < g.level_end <= g.tokens.len() <= usize::MAX,
        0 <= i < preds.len(),
    ensures
        g.tokens.len() <= at < g.grown(preds, false).tokens.len(),
        g.grown(preds, false).tokens[at] == preds[i],
        g.grown(preds, false).parents[at] == Some(p as usize),
        g.grown(preds, false).parents.len() == g.grown(preds, false).tokens.len(),
        g.grown(preds, false).tokens.len() == g.tokens.len() + (g.level_end - g.level_start)
            * preds.len(),
        g.grown(preds, false).tokens.take(g.tokens.len() as int) == g.tokens,
        g.grown(preds, false).parents.take(g.parents.len() as int) == g.parents,
        g.grown(preds, false).level_start == g.tokens.len(),
        g.grown(preds, false).level_end == g.grown(preds, false).tokens.len(),
{
    let k = preds.len() as int;
    let next = g.grown(preds, false);
    repeated_at(preds, g.level_start, g.level_end, p, i);
    let off = (p - g.level_start) * k + i;
    assert(next.tokens.take(g.tokens.len() as int) =~= g.tokens);
    assert(next.parents.take(g.parents.len() as int) =~= g.parents);
    assert(next.tokens[g.tokens.len() + off] == repeated(preds, g.level_start, g.level_end)[off]);
    assert(next.parents[g.tokens.len() + off] == repeated_parents(
        k,
        g.level_start,
        g.level_end,
    )[off]);
    g.tokens.len() + off
}

proof fn repeated_at(preds: Seq<u32>, from: int, to: int, p: int, i: int)
    requires
        0 <= from <= p < to,
        0 <= i < preds.len(),
    ensures
        repeated(preds, from, to).len() == (to - from) * preds.len(),
        repeated_parents(preds.len() as int, from, to).len() == (to - from) * preds.len(),
        0 <= (p - from) * preds.len() + i < (to - from) * preds.len(),
        repeated(preds, from, to)[(p - from) * preds.len() + i] == preds[i],
        repeated_parents(preds.len() as int, from, to)[(p - from) * preds.len() + i] == Some(
            p as usize,
        ),
    decreases to - from,
{
    let k = preds.len() as int;
    let m = to - from;
    let q = p - from;
    assert((m - 1) * k == m * k - k) by (nonlinear_arith);
    assert(0 <= q * k && q * k + k <= m * k) by (nonlinear_arith)
        requires
            0 <= q <= m - 1,
            k > 0,
    ;
    if to - 1 > from {
        if p < to - 1 {
            repeated_at(preds, from, to - 1, p, i);
        } else {
            repeated_at(preds, from, to - 1, from, i);
        }
    } else {
        assert(repeated(preds, from, to - 1).len() == 0);
        assert(repeated_parents(k, from, to - 1).len() == 0);
        assert((m - 1) * k == 0) by (nonlinear_arith)
            requires
                m == 1,
        ;
    }
}

/// The first level holds the first head's predictions, below no node; each later head adds
/// a level below the level before, until the tree holds more than a thousand nodes.
pub proof fn each_head_adds_a_level(heads: Seq<MedusaHead>, base: u32, top_k: int, n: int)
    requires
        1 <= n <= heads.len(),
        0 <= top_k,
    ensures
        n == 1 ==> tree(heads, base, top_k, n).tokens == predictions(heads[0].offset, base, top_k)
            && tree(heads, base, top_k, n).parents == Seq::new(
            top_k as nat,
            |i: int| None::<usize>,
        ),
        n > 1 && tree(heads, base, top_k, n - 1).tokens.len() <= 1000 ==> tree(heads, base, top_k, n)
            == tree(heads, base, top_k, n - 1).grown(
            predictions(heads[n - 1].offset, base, top_k),
            false,
        ),
        tree(heads, base, top_k, n - 1).tokens.len() > 1000 ==> tree(heads, base, top_k, n) == tree(
            heads,
            base,
            top_k,
            n - 1,
        ),
{
    if n == 1 {
        let start = tree(heads, base, top_k, 0);
        let all = tree(heads, base, top_k, 1);
        assert(start == Growth::start());
        assert(all.tokens =~= predictions(heads[0].offset, base, top_k));
        assert(all.parents =~= Seq::new(top_k as nat, |i: int| None::<usize>));
    }
}

/// The guesses of a head are numbers in a row, as many as asked for; those of the next head
/// begin ten further on.
pub proof fn heads_guess_in_a_row(offset: usize, base: u32, top_k: int, i: int)
    requires
        0 <= i < top_k,
        offset < 0xffff_ffff,
        countable(offset, base, top_k),
        countable((offset + 1) as usize, base, top_k),
    ensures
        predictions(offset, base, top_k).len() == top_k,
        predictions(0, base, top_k)[0] == base,
        predictions(offset, base, top_k)[i] == predictions(offset, base, top_k)[0] + i,
        predictions((offset + 1) as usize, base, top_k)[i] == predictions(offset, base, top_k)[i]
            + 10,
{
}

} // verus!
