//! Several drafts at once: collecting candidate paths from every drafter, and
//! choosing the one of which the target accepted most.
//!
//! Scores and embeddings are bit patterns of single-precision numbers. What has
//! to be computed from them (similarities, weighted scores, rates) is computed
//! elsewhere and handed in, or derived from the counts handed out.

use vstd::prelude::*;

use crate::float_bits::{check_lt, float_lt, is_nan, rank, rank_of};
use crate::ranking::{is_ranking, rank_desc};
use crate::text::{dec, push_dec};

verus! {

/// Which drafter a path came from.
#[derive(Debug, Clone, Copy, PartialEq, Eq, Structural)]
pub enum DraftSource {
    GoldenCache,
    PromptLookup,
    RestTrie,
    AnchoredMedusa,
    SyntacticSkeleton,
    InsightRecall,
    CrossDomain,
}

/// A candidate path.
#[derive(Debug)]
pub struct DraftPath {
    pub id: usize,
    pub tokens: Vec<u32>,
    pub source: DraftSource,
    pub confidence: u32,
    pub semantic_embedding: Vec<u32>,
    pub novelty_score: u32,
}

/// What a round of several drafts came to.
#[derive(Debug)]
pub struct MultiDraftResult {
    pub winner: DraftPath,
    pub winner_index: usize,
    /// The other paths, each with the reason why it lost.
    pub rejected_paths: Vec<(DraftPath, String)>,
    pub is_novel_insight: bool,
    /// How many drafted tokens the target accepted, over all paths.
    pub accepted_tokens: usize,
    /// How many tokens were drafted, over all paths.
    pub drafted_tokens: usize,
}

#[derive(Debug)]
pub struct MultiDraftStats {
    pub total_rounds: u64,
    pub total_paths_explored: u64,
    pub novel_insights_found: u64,
    pub golden_wins: u64,
    pub prompt_lookup_wins: u64,
    pub rest_trie_wins: u64,
    pub medusa_wins: u64,
    pub skeleton_wins: u64,
    pub insight_wins: u64,
    pub cross_domain_wins: u64,
}

impl Default for MultiDraftStats {
    fn default() -> (s: MultiDraftStats)
        ensures
            s == MultiDraftStats::zero(),
    {
        MultiDraftStats {
            total_rounds: 0,
            total_paths_explored: 0,
            novel_insights_found: 0,
            golden_wins: 0,
            prompt_lookup_wins: 0,
            rest_trie_wins: 0,
            medusa_wins: 0,
            skeleton_wins: 0,
            insight_wins: 0,
            cross_domain_wins: 0,
        }
    }
}

impl MultiDraftStats {
    /// Nothing counted yet.
    pub open spec fn zero() -> MultiDraftStats {
        MultiDraftStats {
            total_rounds: 0,
            total_paths_explored: 0,
            novel_insights_found: 0,
            golden_wins: 0,
            prompt_lookup_wins: 0,
            rest_trie_wins: 0,
            medusa_wins: 0,
            skeleton_wins: 0,
            insight_wins: 0,
            cross_domain_wins: 0,
        }
    }

    /// One more round over `paths` paths can be counted.
    pub open spec fn has_room(self, paths: nat) -> bool {
        &&& self.total_rounds < u64::MAX
        &&& self.total_paths_explored + paths <= u64::MAX
        &&& self.novel_insights_found < u64::MAX
        &&& self.golden_wins < u64::MAX
        &&& self.prompt_lookup_wins < u64::MAX
        &&& self.rest_trie_wins < u64::MAX
        &&& self.medusa_wins < u64::MAX
        &&& self.skeleton_wins < u64::MAX
        &&& self.insight_wins < u64::MAX
        &&& self.cross_domain_wins < u64::MAX
    }

    /// A round over `paths` paths.
    pub open spec fn round(self, paths: nat) -> MultiDraftStats {
        MultiDraftStats {
            total_rounds: (self.total_rounds + 1) as u64,
            total_paths_explored: (self.total_paths_explored + paths) as u64,
            ..self
        }
    }

    /// A path of `source` won.
    pub open spec fn win(self, source: DraftSource, novel: bool) -> MultiDraftStats {
        let s = if novel {
            MultiDraftStats {
                novel_insights_found: (self.novel_insights_found + 1) as u64,
                ..self
            }
        } else {
            self
        };
        match source {
            DraftSource::GoldenCache => MultiDraftStats {
                golden_wins: (s.golden_wins + 1) as u64,
                ..s
            },
            DraftSource::PromptLookup => MultiDraftStats {
                prompt_lookup_wins: (s.prompt_lookup_wins + 1) as u64,
                ..s
            },
            DraftSource::RestTrie => MultiDraftStats {
                rest_trie_wins: (s.rest_trie_wins + 1) as u64,
                ..s
            },
            DraftSource::AnchoredMedusa => MultiDraftStats {
                medusa_wins: (s.medusa_wins + 1) as u64,
                ..s
            },
            DraftSource::SyntacticSkeleton => MultiDraftStats {
                skeleton_wins: (s.skeleton_wins + 1) as u64,
                ..s
            },
            DraftSource::InsightRecall => MultiDraftStats {
                insight_wins: (s.insight_wins + 1) as u64,
                ..s
            },
            DraftSource::CrossDomain => MultiDraftStats {
                cross_domain_wins: (s.cross_domain_wins + 1) as u64,
                ..s
            },
        }
    }
}

/// The novelty above which a winning path counts as an insight: 0.3.
pub const NOVELTY_THRESHOLD: u32 = 0x3e99_999a;

/// The similarity above which two paths count as one: 0.95.
pub const DEDUP_THRESHOLD: u32 = 0x3f73_3333;

/// Explores several drafts in parallel.
pub struct MultiDraftExplorer {
    pub max_parallel_paths: usize,
    pub novelty_threshold: u32,
    pub dedup_threshold: u32,
    pub stats: MultiDraftStats,
}

/// The largest index of a largest score among the first `n`.
pub open spec fn last_best(scores: Seq<usize>, n: int) -> int
    decreases n,
{
    if n <= 1 {
        0
    } else {
        let b = last_best(scores, n - 1);
        if scores[n - 1] >= scores[b] {
            n - 1
        } else {
            b
        }
    }
}

/// The winner has a largest score, and every later path a smaller one.
pub proof fn last_best_is_last_of_the_best(scores: Seq<usize>, n: int)
    requires
        0 < n <= scores.len(),
    ensures
        0 <= last_best(scores, n) < n,
        forall|i: int| 0 <= i < n ==> #[trigger] scores[i] <= scores[last_best(scores, n)],
        forall|i: int|
            last_best(scores, n) < i < n ==> #[trigger] scores[i] < scores[last_best(scores, n)],
    decreases n,
{
    if n > 1 {
        last_best_is_last_of_the_best(scores, n - 1);
    }
}

/// How many tokens the paths hold.
pub open spec fn token_total(paths: Seq<DraftPath>) -> nat
    decreases paths.len(),
{
    if paths.len() == 0 {
        0
    } else {
        token_total(paths.drop_last()) + paths.last().tokens@.len()
    }
}

/// The sum of scores.
pub open spec fn score_total(scores: Seq<usize>) -> nat
    decreases scores.len(),
{
    if scores.len() == 0 {
        0
    } else {
        score_total(scores.drop_last()) + scores.last() as nat
    }
}

proof fn token_total_grows(paths: Seq<DraftPath>, k: int)
    requires
        0 <= k <= paths.len(),
    ensures
        token_total(paths.take(k)) <= token_total(paths),
    decreases paths.len(),
{
    if k < paths.len() {
        token_total_grows(paths.drop_last(), k);
        assert(paths.drop_last().take(k) =~= paths.take(k));
    } else {
        assert(paths.take(k) =~= paths);
    }
}

proof fn score_total_grows(scores: Seq<usize>, k: int)
    requires
        0 <= k <= scores.len(),
    ensures
        score_total(scores.take(k)) <= score_total(scores),
    decreases scores.len(),
{
    if k < scores.len() {
        score_total_grows(scores.drop_last(), k);
        assert(scores.drop_last().take(k) =~= scores.take(k));
    } else {
        assert(scores.take(k) =~= scores);
    }
}

/// Why a path with `score` accepted out of `len` tokens lost.
pub open spec fn rejection_reason(score: nat, len: nat) -> Seq<char> {
    if score == 0 {
        "Todos tokens rejeitados pelo mestre"@
    } else {
        "Aceitos apenas "@ + dec(score) + "/"@ + dec(len) + " tokens"@
    }
}

/// The score of path `i`; zero where none was given.
pub open spec fn score_at(scores: Seq<usize>, i: int) -> nat {
    if i < scores.len() {
        scores[i] as nat
    } else {
        0
    }
}

fn make_reason(score: usize, len: usize) -> (s: String)
    ensures
        s@ == rejection_reason(score as nat, len as nat),
{
    if score == 0 {
        return "Todos tokens rejeitados pelo mestre".to_string();
    }
    let mut s = "Aceitos apenas ".to_string();
    push_dec(&mut s, score as u64);
    s.append("/");
    push_dec(&mut s, len as u64);
    s.append(" tokens");
    s
}

/// The paths among the first `n` that are kept when a path is dropped that is
/// too similar to one kept before it.
pub open spec fn kept(similar: spec_fn(int, int) -> bool, n: int) -> Seq<int>
    decreases n,
{
    if n <= 0 {
        Seq::empty()
    } else {
        let before = kept(similar, n - 1);
        if exists|k: int| 0 <= k < before.len() && similar(n - 1, #[trigger] before[k]) {
            before
        } else {
            before.push(n - 1)
        }
    }
}

/// No kept path is too similar to an earlier kept one, and every dropped path is
/// too similar to an earlier kept one.
pub proof fn kept_paths_differ(similar: spec_fn(int, int) -> bool, n: int)
    requires
        0 <= n,
    ensures
        forall|k: int| 0 <= k < kept(similar, n).len() ==> 0 <= #[trigger] kept(similar, n)[k] < n,
        forall|a: int, b: int|
            0 <= a < b < kept(similar, n).len() ==> #[trigger] kept(similar, n)[a]
                < #[trigger] kept(similar, n)[b] && !similar(kept(similar, n)[b], kept(similar, n)[a]),
        forall|i: int|
            0 <= i < n && !(#[trigger] kept(similar, n).contains(i)) ==> exists|k: int|
                0 <= k < kept(similar, n).len() && kept(similar, n)[k] < i && similar(
                    i,
                    #[trigger] kept(similar, n)[k],
                ),
    decreases n,
{
    if n > 0 {
        kept_paths_differ(similar, n - 1);
        let before = kept(similar, n - 1);
        let now = kept(similar, n);
        assert forall|i: int| 0 <= i < n && !(#[trigger] now.contains(i)) implies exists|k: int|
            0 <= k < now.len() && now[k] < i && similar(i, #[trigger] now[k]) by {
            if i < n - 1 {
                assert(!before.contains(i)) by {
                    if before.contains(i) {
                        let k = choose|k: int| 0 <= k < before.len() && before[k] == i;
                        assert(now[k] == i);
                    }
                }
                let k = choose|k: int|
                    0 <= k < before.len() && before[k] < i && similar(i, #[trigger] before[k]);
                assert(now[k] == before[k]);
            } else {
                if now.len() > before.len() {
                    assert(now[before.len() as int] == n - 1);
                }
            }
        }
    }
}

/// The keys by which the kept paths are ranked.
pub open spec fn rank_keys(scores: Seq<u32>, which: Seq<int>) -> Seq<i128> {
    which.map_values(|i: int| rank(scores[i]) as i128)
}

impl MultiDraftExplorer {
    /// An explorer of at most `max_parallel_paths` paths.
    pub fn new(max_parallel_paths: usize) -> (e: MultiDraftExplorer)
        ensures
            e.max_parallel_paths == max_parallel_paths,
            e.novelty_threshold == NOVELTY_THRESHOLD,
            e.dedup_threshold == DEDUP_THRESHOLD,
            e.stats == MultiDraftStats::zero(),
    {
        MultiDraftExplorer {
            max_parallel_paths,
            novelty_threshold: NOVELTY_THRESHOLD,
            dedup_threshold: DEDUP_THRESHOLD,
            stats: MultiDraftStats::default(),
        }
    }

    /// The paths that survive deduplication, where `similarity[i][j]` is the
    /// similarity of paths `i` and `j < i`: a path is dropped where it is more
    /// similar to an earlier survivor than the threshold allows.
    pub fn deduplicate(&self, similarity: &Vec<Vec<u32>>) -> (r: Vec<usize>)
        requires
            forall|i: int| 0 <= i < similarity@.len() ==> (#[trigger] similarity@[i])@.len() >= i,
        ensures
            r@.map_values(|x: usize| x as int) == kept(
                self.too_similar(similarity@),
                similarity@.len() as int,
            ),
    {
        let mut r: Vec<usize> = Vec::new();
        let ghost similar = self.too_similar(similarity@);
        let mut i: usize = 0;
        proof {
            assert(r@.map_values(|x: usize| x as int) =~= kept(similar, 0));
        }
        while i < similarity.len()
            invariant
                i <= similarity@.len(),
                similar == self.too_similar(similarity@),
                forall|k: int|
                    0 <= k < similarity@.len() ==> (#[trigger] similarity@[k])@.len() >= k,
                r@.map_values(|x: usize| x as int) == kept(similar, i as int),
                forall|k: int| 0 <= k < r@.len() ==> #[trigger] r@[k] < i,
            decreases similarity@.len() - i,
        {
            let mut dup: bool = false;
            let mut k: usize = 0;
            let ghost before = kept(similar, i as int);
            while k < r.len()
                invariant
                    i < similarity@.len(),
                    k <= r@.len(),
                    similar == self.too_similar(similarity@),
                    forall|j: int|
                        0 <= j < similarity@.len() ==> (#[trigger] similarity@[j])@.len() >= j,
                    before == r@.map_values(|x: usize| x as int),
                    forall|j: int| 0 <= j < r@.len() ==> #[trigger] r@[j] < i,
                    dup == exists|j: int| 0 <= j < k && similar(i as int, #[trigger] before[j]),
                decreases r@.len() - k,
            {
                if check_lt(self.dedup_threshold, similarity[i][r[k]]) {
                    dup = true;
                    assert(similar(i as int, before[k as int]));
                }
                k = k + 1;
            }
            if !dup {
                r.push(i);
            }
            proof {
                if !dup {
                    assert(r@.map_values(|x: usize| x as int) =~= before.push(i as int));
                }
            }
            i = i + 1;
        }
        r
    }

    /// A path is too similar to another where their similarity exceeds the
    /// threshold.
    pub open spec fn too_similar(&self, similarity: Seq<Vec<u32>>) -> spec_fn(int, int) -> bool {
        |i: int, j: int| float_lt(self.dedup_threshold, similarity[i]@[j])
    }

    /// The paths to check, best first: those that survive deduplication, ranked
    /// by `scores`, at most as many as may run in parallel.
    pub fn collect_paths(&self, similarity: &Vec<Vec<u32>>, scores: &Vec<u32>) -> (r: Vec<usize>)
        requires
            forall|i: int| 0 <= i < similarity@.len() ==> (#[trigger] similarity@[i])@.len() >= i,
            scores@.len() == similarity@.len(),
            forall|i: int| 0 <= i < scores@.len() ==> !is_nan(#[trigger] scores@[i]),
        ensures
            ({
                let survivors = kept(self.too_similar(similarity@), similarity@.len() as int);
                exists|order: Seq<usize>|
                    {
                        &&& #[trigger] is_ranking(rank_keys(scores@, survivors), order)
                        &&& r@.len() == if survivors.len() <= self.max_parallel_paths {
                            survivors.len()
                        } else {
                            self.max_parallel_paths as nat
                        }
                        &&& forall|k: int|
                            0 <= k < r@.len() ==> #[trigger] r@[k] == survivors[order[k] as int]
                    }
            }),
    {
        let unique = self.deduplicate(similarity);
        let ghost survivors = kept(self.too_similar(similarity@), similarity@.len() as int);
        proof {
            kept_paths_differ(self.too_similar(similarity@), similarity@.len() as int);
            assert(unique@.len() == survivors.len());
            assert forall|k: int| 0 <= k < unique@.len() implies unique@[k] as int
                == survivors[k] by {
                assert(unique@.map_values(|x: usize| x as int)[k] == unique@[k] as int);
            }
        }
        let mut keys: Vec<i128> = Vec::new();
        let mut i: usize = 0;
        while i < unique.len()
            invariant
                i <= unique@.len(),
                unique@.len() == survivors.len(),
                forall|k: int|
                    0 <= k < unique@.len() ==> #[trigger] unique@[k] as int == survivors[k],
                forall|k: int|
                    0 <= k < survivors.len() ==> 0 <= #[trigger] survivors[k] < scores@.len(),
                keys@ == rank_keys(scores@, survivors).take(i as int),
            decreases unique@.len() - i,
        {
            assert(unique@[i as int] as int == survivors[i as int]);
            keys.push(rank_of(scores[unique[i]]) as i128);
            i = i + 1;
            assert(keys@ =~= rank_keys(scores@, survivors).take(i as int));
        }
        assert(keys@ =~= rank_keys(scores@, survivors));
        let order = rank_desc(&keys);
        let n: usize = if order.len() <= self.max_parallel_paths {
            order.len()
        } else {
            self.max_parallel_paths
        };
        let mut r: Vec<usize> = Vec::new();
        let mut k: usize = 0;
        while k < n
            invariant
                k <= n <= order@.len(),
                order@.len() == unique@.len() == survivors.len(),
                is_ranking(keys@, order@),
                keys@.len() == unique@.len(),
                forall|j: int|
                    0 <= j < unique@.len() ==> #[trigger] unique@[j] as int == survivors[j],
                r@.len() == k,
                forall|j: int| 0 <= j < k ==> #[trigger] r@[j] == survivors[order@[j] as int],
            decreases n - k,
        {
            assert(0 <= order@[k as int] < keys@.len());
            r.push(unique[order[k]]);
            k = k + 1;
        }
        assert(is_ranking(rank_keys(scores@, survivors), order@));
        r
    }

    /// Chooses the path of which most tokens were accepted, the last of them
    /// where several were; `verification_scores[i]` tokens of path `i` were
    /// accepted. With no path or no score the winner is an empty path.
    pub fn select_winner(
        &mut self,
        paths: Vec<DraftPath>,
        verification_scores: &Vec<usize>,
    ) -> (r: MultiDraftResult)
        requires
            old(self).stats.has_room(paths@.len()),
            paths@.len() > 0 && verification_scores@.len() > 0 ==> last_best(
                verification_scores@,
                verification_scores@.len() as int,
            ) < paths@.len(),
            token_total(paths@) <= usize::MAX,
            score_total(verification_scores@) <= usize::MAX,
        ensures
            final(self).max_parallel_paths == old(self).max_parallel_paths,
            final(self).novelty_threshold == old(self).novelty_threshold,
            final(self).dedup_threshold == old(self).dedup_threshold,
            paths@.len() == 0 || verification_scores@.len() == 0 ==> {
                &&& final(self).stats == old(self).stats.round(paths@.len())
                &&& r.winner.id == 0
                &&& r.winner.tokens@.len() == 0
                &&& r.winner.source == DraftSource::PromptLookup
                &&& r.winner.confidence == 0
                &&& r.winner.semantic_embedding@.len() == 0
                &&& r.winner.novelty_score == 0
                &&& r.winner_index == 0
                &&& r.rejected_paths@.len() == 0
                &&& !r.is_novel_insight
                &&& r.accepted_tokens == 0
                &&& r.drafted_tokens == 0
            },
            paths@.len() > 0 && verification_scores@.len() > 0 ==> {
                let w = last_best(verification_scores@, verification_scores@.len() as int);
                let novel = float_lt(old(self).novelty_threshold, paths@[w].novelty_score);
                &&& r.winner_index == w
                &&& r.winner == paths@[w]
                &&& r.is_novel_insight == novel
                &&& final(self).stats == old(self).stats.round(paths@.len()).win(
                    paths@[w].source,
                    novel,
                )
                &&& r.accepted_tokens == if token_total(paths@) > 0 {
                    score_total(verification_scores@)
                } else {
                    0
                }
                &&& r.drafted_tokens == token_total(paths@)
                &&& r.rejected_paths@.len() == paths@.len() - 1
                &&& forall|k: int|
                    0 <= k < r.rejected_paths@.len() ==> {
                        let i = if k < w {
                            k
                        } else {
                            k + 1
                        };
                        &&& (#[trigger] r.rejected_paths@[k]).0 == paths@[i]
                        &&& r.rejected_paths@[k].1@ == rejection_reason(
                            score_at(verification_scores@, i),
                            paths@[i].tokens@.len(),
                        )
                    }
            },
    {
        self.stats.total_rounds = self.stats.total_rounds + 1;
        self.stats.total_paths_explored = self.stats.total_paths_explored + paths.len() as u64;
        if paths.len() == 0 || verification_scores.len() == 0 {
            return MultiDraftResult {
                winner: DraftPath {
                    id: 0,
                    tokens: Vec::new(),
                    source: DraftSource::PromptLookup,
                    confidence: 0,
                    semantic_embedding: Vec::new(),
                    novelty_score: 0,
                },
                winner_index: 0,
                rejected_paths: Vec::new(),
                is_novel_insight: false,
                accepted_tokens: 0,
                drafted_tokens: 0,
            };
        }
        let ghost all = paths@;
        let ghost scores = verification_scores@;
        let winner_index: usize = find_last_best(verification_scores);
        let is_novel: bool = check_lt(self.novelty_threshold, paths[winner_index].novelty_score);
        if is_novel {
            self.stats.novel_insights_found = self.stats.novel_insights_found + 1;
        }
        match paths[winner_index].source {
            DraftSource::GoldenCache => {
                self.stats.golden_wins = self.stats.golden_wins + 1;
            },
            DraftSource::PromptLookup => {
                self.stats.prompt_lookup_wins = self.stats.prompt_lookup_wins + 1;
            },
            DraftSource::RestTrie => {
                self.stats.rest_trie_wins = self.stats.rest_trie_wins + 1;
            },
            DraftSource::AnchoredMedusa => {
                self.stats.medusa_wins = self.stats.medusa_wins + 1;
            },
            DraftSource::SyntacticSkeleton => {
                self.stats.skeleton_wins = self.stats.skeleton_wins + 1;
            },
            DraftSource::InsightRecall => {
                self.stats.insight_wins = self.stats.insight_wins + 1;
            },
            DraftSource::CrossDomain => {
                self.stats.cross_domain_wins = self.stats.cross_domain_wins + 1;
            },
        }
        let drafted: usize = count_tokens(&paths);
        let total: usize = count_scores(verification_scores);
        let accepted: usize = if drafted > 0 {
            total
        } else {
            0
        };
        let mut rejected: Vec<(DraftPath, String)> = Vec::new();
        let mut winner: Option<DraftPath> = None;
        let mut i: usize = 0;
        for path in it: paths
            invariant
                it.seq() == all,
                i == it.index(),
                scores == verification_scores@,
                winner_index < all.len(),
                match winner {
                    Some(p) => winner_index < i && p == all[winner_index as int],
                    None => i <= winner_index,
                },
                rejected@.len() == if i <= winner_index {
                    i as int
                } else {
                    i - 1
                },
                forall|k: int|
                    0 <= k < rejected@.len() ==> {
                        let j = if k < winner_index {
                            k
                        } else {
                            k + 1
                        };
                        &&& (#[trigger] rejected@[k]).0 == all[j]
                        &&& rejected@[k].1@ == rejection_reason(
                            score_at(scores, j),
                            all[j].tokens@.len(),
                        )
                    },
                all.len() <= usize::MAX,
        {
            if i == winner_index {
                winner = Some(path);
            } else {
                let score: usize = if i < verification_scores.len() {
                    verification_scores[i]
                } else {
                    0
                };
                let reason = make_reason(score, path.tokens.len());
                rejected.push((path, reason));
            }
            i = i + 1;
        }
        match winner {
            Some(winner) => MultiDraftResult {
                winner,
                winner_index,
                rejected_paths: rejected,
                is_novel_insight: is_novel,
                accepted_tokens: accepted,
                drafted_tokens: drafted,
            },
            None => {
                assert(false);
                MultiDraftResult {
                    winner: DraftPath {
                        id: 0,
                        tokens: Vec::new(),
                        source: DraftSource::PromptLookup,
                        confidence: 0,
                        semantic_embedding: Vec::new(),
                        novelty_score: 0,
                    },
                    winner_index,
                    rejected_paths: rejected,
                    is_novel_insight: is_novel,
                    accepted_tokens: accepted,
                    drafted_tokens: drafted,
                }
            },
        }
    }

    /// What was counted, as text.
    pub fn stats_report(&self) -> (s: String)
        ensures
            s@ == "MultiDraft Stats:\nRounds: "@ + dec(self.stats.total_rounds as nat)
                + "\nPaths Explored: "@ + dec(self.stats.total_paths_explored as nat)
                + "\nNovel Insights: "@ + dec(self.stats.novel_insights_found as nat)
                + "\nWinner Sources: Golden="@ + dec(self.stats.golden_wins as nat) + " PL="@ + dec(
                self.stats.prompt_lookup_wins as nat,
            ) + " REST="@ + dec(self.stats.rest_trie_wins as nat) + " Medusa="@ + dec(
                self.stats.medusa_wins as nat,
            ) + " Skeleton="@ + dec(self.stats.skeleton_wins as nat) + " Insight="@ + dec(
                self.stats.insight_wins as nat,
            ) + " Cross="@ + dec(self.stats.cross_domain_wins as nat),
    {
        let mut s = "MultiDraft Stats:\nRounds: ".to_string();
        push_dec(&mut s, self.stats.total_rounds);
        s.append("\nPaths Explored: ");
        push_dec(&mut s, self.stats.total_paths_explored);
        s.append("\nNovel Insights: ");
        push_dec(&mut s, self.stats.novel_insights_found);
        s.append("\nWinner Sources: Golden=");
        push_dec(&mut s, self.stats.golden_wins);
        s.append(" PL=");
        push_dec(&mut s, self.stats.prompt_lookup_wins);
        s.append(" REST=");
        push_dec(&mut s, self.stats.rest_trie_wins);
        s.append(" Medusa=");
        push_dec(&mut s, self.stats.medusa_wins);
        s.append(" Skeleton=");
        push_dec(&mut s, self.stats.skeleton_wins);
        s.append(" Insight=");
        push_dec(&mut s, self.stats.insight_wins);
        s.append(" Cross=");
        push_dec(&mut s, self.stats.cross_domain_wins);
        s
    }
}

fn find_last_best(scores: &Vec<usize>) -> (b: usize)
    requires
        scores@.len() > 0,
    ensures
        b == last_best(scores@, scores@.len() as int),
        b < scores@.len(),
{
    let mut b: usize = 0;
    let mut n: usize = 1;
    while n < scores.len()
        invariant
            0 < n <= scores@.len(),
            b == last_best(scores@, n as int),
            b < n,
        decreases scores@.len() - n,
    {
        if scores[n] >= scores[b] {
            b = n;
        }
        n = n + 1;
    }
    b
}

fn count_tokens(paths: &Vec<DraftPath>) -> (n: usize)
    requires
        token_total(paths@) <= usize::MAX,
    ensures
        n == token_total(paths@),
{
    let mut n: usize = 0;
    let mut i: usize = 0;
    assert(paths@.take(0) =~= Seq::<DraftPath>::empty());
    while i < paths.len()
        invariant
            i <= paths@.len(),
            token_total(paths@) <= usize::MAX,
            n == token_total(paths@.take(i as int)),
        decreases paths@.len() - i,
    {
        proof {
            assert(paths@.take(i + 1).drop_last() =~= paths@.take(i as int));
            token_total_grows(paths@, i + 1);
        }
        n = n + paths[i].tokens.len();
        i = i + 1;
    }
    assert(paths@.take(i as int) =~= paths@);
    n
}

fn count_scores(scores: &Vec<usize>) -> (n: usize)
    requires
        score_total(scores@) <= usize::MAX,
    ensures
        n == score_total(scores@),
{
    let mut n: usize = 0;
    let mut i: usize = 0;
    assert(scores@.take(0) =~= Seq::<usize>::empty());
    while i < scores.len()
        invariant
            i <= scores@.len(),
            score_total(scores@) <= usize::MAX,
            n == score_total(scores@.take(i as int)),
        decreases scores@.len() - i,
    {
        proof {
            assert(scores@.take(i + 1).drop_last() =~= scores@.take(i as int));
            score_total_grows(scores@, i + 1);
        }
        n = n + scores[i];
        i = i + 1;
    }
    assert(scores@.take(i as int) =~= scores@);
    n
}

/// A round and its winner are counted once: the winner's source gains one win, no other
/// source gains any, and the insights gain one where the winner is novel.
pub proof fn wins_are_counted_once(
    s: MultiDraftStats,
    paths: nat,
    source: DraftSource,
    novel: bool,
)
    requires
        s.has_room(paths),
    ensures
        ({
            let after = s.round(paths).win(source, novel);
            let one = |b: bool|
                if b {
                    1int
                } else {
                    0int
                };
            &&& after.total_rounds == s.total_rounds + 1
            &&& after.total_paths_explored == s.total_paths_explored + paths
            &&& after.novel_insights_found == s.novel_insights_found + one(novel)
            &&& after.golden_wins == s.golden_wins + one(source == DraftSource::GoldenCache)
            &&& after.prompt_lookup_wins == s.prompt_lookup_wins + one(
                source == DraftSource::PromptLookup,
            )
            &&& after.rest_trie_wins == s.rest_trie_wins + one(source == DraftSource::RestTrie)
            &&& after.medusa_wins == s.medusa_wins + one(source == DraftSource::AnchoredMedusa)
            &&& after.skeleton_wins == s.skeleton_wins + one(
                source == DraftSource::SyntacticSkeleton,
            )
            &&& after.insight_wins == s.insight_wins + one(source == DraftSource::InsightRecall)
            &&& after.cross_domain_wins == s.cross_domain_wins + one(
                source == DraftSource::CrossDomain,
            )
        }),
{
}

/// The drafted and the accepted tokens are sums: what two lists hold together is what the
/// one and the other hold, and a list of one path or score holds what that one does.
pub proof fn totals_add_up(
    a: Seq<DraftPath>,
    b: Seq<DraftPath>,
    p: DraftPath,
    x: Seq<usize>,
    y: Seq<usize>,
    n: usize,
)
    ensures
        token_total(a + b) == token_total(a) + token_total(b),
        token_total(seq![p]) == p.tokens@.len(),
        score_total(x + y) == score_total(x) + score_total(y),
        score_total(seq![n]) == n,
    decreases b.len() + y.len(),
{
    assert(seq![p].drop_last() =~= Seq::<DraftPath>::empty());
    assert(token_total(Seq::<DraftPath>::empty()) == 0);
    assert(seq![n].drop_last() =~= Seq::<usize>::empty());
    assert(score_total(Seq::<usize>::empty()) == 0);
    if b.len() > 0 {
        totals_add_up(a, b.drop_last(), p, x, y, n);
        assert((a + b).drop_last() =~= a + b.drop_last());
        assert((a + b).last() == b.last());
    } else {
        assert(a + b =~= a);
    }
    if y.len() > 0 {
        totals_add_up(a, b, p, x, y.drop_last(), n);
        assert((x + y).drop_last() =~= x + y.drop_last());
        assert((x + y).last() == y.last());
    } else {
        assert(x + y =~= x);
    }
}

} // verus!
