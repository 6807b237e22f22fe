use nodestor_inference::lsh_buckets::{compute_hash, LshVocabIndex};
use nodestor_inference::mcts_engine::MctsEngine;
use nodestor_inference::medusa_heads::{AnchorMask, AnchoredMedusa, MedusaHead};
use nodestor_inference::multi_draft::{DraftPath, DraftSource, MultiDraftExplorer};
use nodestor_inference::prompt_lookup::PromptLookup;
use nodestor_inference::rest_trie::{RestTrie, TreeAttentionMask};
use nodestor_inference::sampler::{SampleStep, Sampler, SamplerConfig};
use nodestor_inference::spec_stream_v2::{
    count_looked_at, deterministic_uniform, SpecConfig, SpecStreamEngine,
};
use nodestor_inference::speculation::{prompt_lookup, Decoder, Phase};
use nodestor_inference::syntactic_skeleton::{GrammarCategory, SyntacticSkeleton};

fn bits(v: &[f32]) -> Vec<u32> {
    v.iter().map(|x| x.to_bits()).collect()
}

// ─── Copying from the context ────────────────────────────────────────────────

#[test]
fn test_prompt_lookup_simple_match() {
    let mut pl = PromptLookup::new(vec![3, 2], 5);
    pl.append_context(&[1, 2, 3, 4, 5, 6, 7, 8, 9, 10, 1, 2, 3, 4]);
    let draft = pl.lookup(&[2, 3, 4]).expect("a match");
    assert_eq!(draft, vec![5, 6, 7, 8, 9]);
}

#[test]
fn test_prompt_lookup_fallback() {
    let mut pl = PromptLookup::new(vec![4, 2], 3);
    pl.append_context(&[10, 20, 30, 40, 50, 60, 70, 80]);
    let draft = pl.lookup(&[99, 99, 20, 30]).unwrap();
    assert_eq!(draft, vec![40, 50, 60]);
}

#[test]
fn test_prompt_lookup_boundary() {
    let mut pl = PromptLookup::new(vec![2], 10);
    pl.inject_lancedb_context(&[100, 200, 300]);
    pl.inject_lancedb_context(&[400, 500, 600]);
    let draft = pl.lookup(&[100, 200]).unwrap();
    assert_eq!(draft, vec![300]);
    pl.clear();
    assert!(pl.lookup(&[100, 200]).is_none());
}

#[test]
fn the_longest_match_gives_the_draft() {
    assert_eq!(prompt_lookup(&vec![1, 2, 3, 4, 1, 2, 3], 2), vec![4, 1]);
    assert!(prompt_lookup(&vec![1, 2], 4).is_empty());
    assert!(prompt_lookup(&vec![1, 2, 3, 4], 4).is_empty());
}

/// A target that repeats the tokens 1 to 5 for ever.
fn target(seq: &[u32]) -> u32 {
    seq.last().unwrap() % 5 + 1
}

fn run(max_tokens: usize, eos: Option<u32>, window: Option<usize>) -> (Decoder, Vec<Vec<u32>>) {
    let prompt: Vec<u32> = vec![1, 2, 3, 4, 5, 1];
    let next = target(&prompt);
    let mut d = Decoder::new(prompt, max_tokens, eos, Some(next));
    let mut blocks = Vec::new();
    let mut cached = d.full_seq.len();
    loop {
        d.draft();
        if matches!(d.phase, Phase::Verifying) {
            let mut seq = d.full_seq.clone();
            let greedy: Vec<u32> = d
                .pending
                .clone()
                .iter()
                .map(|t| {
                    seq.push(*t);
                    target(&seq)
                })
                .collect();
            let (kept, emitted) = d.verify(&greedy);
            assert!(emitted.len() <= kept);
            cached += kept;
        }
        if matches!(d.phase, Phase::Done) {
            break;
        }
        if d.correct().is_none() {
            break;
        }
        cached += 1;
        let evicted = match window {
            Some(w) if cached > w => cached - w,
            _ => 0,
        };
        cached -= evicted;
        let next = target(&d.full_seq);
        if let Some(b) = d.advance(Some(next), evicted) {
            blocks.push(b);
        }
    }
    (d, blocks)
}

#[test]
fn speculation_changes_nothing_but_the_speed() {
    let (d, _) = run(40, None, None);
    let mut expected: Vec<u32> = vec![1, 2, 3, 4, 5, 1];
    while expected.len() < 46 {
        let t = target(&expected);
        expected.push(t);
    }
    assert_eq!(d.full_seq, expected);
    assert_eq!(d.generated.len(), 40);
    assert!(d.spec_accepted > 0);
    assert_eq!(d.draft_k, 16);
}

#[test]
fn a_text_ends_before_its_end_token() {
    let (d, _) = run(40, Some(4), None);
    assert_eq!(d.generated, vec![2, 3]);
    let (d, _) = run(usize::MAX, Some(4), None);
    assert_eq!(d.generated, vec![2, 3]);
    let (d, _) = run(0, None, None);
    assert!(d.generated.is_empty());
}

#[test]
fn tokens_that_leave_the_window_come_in_blocks() {
    let (d, blocks) = run(200, None, Some(8));
    assert!(!blocks.is_empty());
    let all: Vec<u32> = blocks.concat();
    assert!(blocks.iter().all(|b| b.len() >= 48));
    assert_eq!(all[..], d.full_seq[..all.len()]);
}

// ─── Tries, skeletons, heads ─────────────────────────────────────────────────

#[test]
fn test_rest_trie_insert_and_branches() {
    let sequences = vec![
        vec![1, 2, 3, 4],
        vec![1, 2, 5, 6],
        vec![1, 7],
        vec![1, 2, 3, 9],
    ];
    let trie = RestTrie::from_token_sequences(&sequences, 10);
    let branches = trie.generate_branches(2);
    assert!(!branches.is_empty());
    assert!(branches.len() <= 2);
    assert_eq!(branches[0][..3], [1, 2, 3]);
}

#[test]
fn branches_are_inserted_sequences() {
    let sequences = vec![vec![1, 2, 3, 4], vec![1, 7], vec![], vec![5]];
    let trie = RestTrie::from_token_sequences(&sequences, 3);
    assert_eq!(trie.generate_branches(9), vec![vec![1, 2, 3], vec![1, 7], vec![5]]);
    assert_eq!(trie.generate_branches(1), vec![vec![1, 2, 3]]);
    assert_eq!(trie.root.frequency, 4);
    assert!(!trie.root.is_terminal);
    let mut same = RestTrie::from_token_sequences(&sequences, 3);
    same.insert_sequence(&[], 7);
    assert_eq!(same.root.frequency, 4);
    assert_eq!(same.generate_branches(9), trie.generate_branches(9));
    let flat = RestTrie::from_token_sequences(&sequences, 0);
    assert_eq!(flat.root.frequency, 4);
    assert!(flat.root.is_terminal);
    assert!(flat.root.children.is_empty());
}

#[test]
fn the_order_of_sequences_does_not_matter() {
    let a = RestTrie::from_token_sequences(&vec![vec![1, 2], vec![1, 3], vec![1, 2, 4]], 5);
    let b = RestTrie::from_token_sequences(&vec![vec![1, 2, 4], vec![1, 2], vec![1, 3]], 5);
    for trie in [&a, &b] {
        let one = trie.root.children.iter().find(|c| c.token_id == 1).unwrap();
        let two = one.children.iter().find(|c| c.token_id == 2).unwrap();
        assert_eq!((trie.root.frequency, one.frequency, two.frequency), (4, 4, 3));
        assert!(two.is_terminal && !one.is_terminal);
    }
}

#[test]
fn the_most_frequent_category_is_predicted() {
    let (n, v, a) = (GrammarCategory::Noun, GrammarCategory::Verb, GrammarCategory::Adverb);
    let mut skeleton = SyntacticSkeleton::new();
    skeleton.add_lexicon(1, n);
    skeleton.train_from_templates(&vec![vec![n, a], vec![n, v], vec![n, v]]);
    assert_eq!(skeleton.predict_template(1, 1), vec![v]);
    skeleton.train_from_templates(&vec![vec![n, a], vec![n, a]]);
    assert_eq!(skeleton.predict_template(1, 1), vec![a]);
    assert_eq!(skeleton.predict_template(2, 1), vec![]);
}

#[test]
fn the_tree_counts_its_sequences() {
    let trie = RestTrie::from_token_sequences(&vec![vec![1, 2], vec![1, 3, 4], vec![1, 2]], 2);
    let one = &trie.root.children[0];
    assert_eq!((one.token_id, one.frequency, one.is_terminal), (1, 4, false));
    let two = one.children.iter().find(|c| c.token_id == 2).unwrap();
    assert_eq!((two.frequency, two.is_terminal), (3, true));
    let three = one.children.iter().find(|c| c.token_id == 3).unwrap();
    assert_eq!((three.frequency, three.is_terminal), (2, true));
    assert!(three.children.is_empty());
}

#[test]
fn test_tree_attention_topology() {
    let sequences = vec![vec![10, 20], vec![10, 30]];
    let trie = RestTrie::from_token_sequences(&sequences, 5);
    let topology = TreeAttentionMask::from_trie(&trie);
    assert_eq!(topology.candidate_tokens.len(), 3);
    assert!(topology.candidate_tokens.contains(&10));
    assert!(topology.candidate_tokens.contains(&20));
    assert!(topology.candidate_tokens.contains(&30));
    assert_eq!(topology.parent_indices[0], None);
}

#[test]
fn test_syntactic_skeleton() {
    let mut skeleton = SyntacticSkeleton::new();
    skeleton.train_from_templates(&vec![vec![
        GrammarCategory::Article,
        GrammarCategory::Noun,
        GrammarCategory::Verb,
    ]]);
    skeleton.add_lexicon(10, GrammarCategory::Article);
    skeleton.add_lexicon(20, GrammarCategory::Noun);
    skeleton.add_lexicon(30, GrammarCategory::Verb);
    skeleton.add_lexicon(40, GrammarCategory::Adjective);

    let template = skeleton.predict_template(10, 2);
    assert_eq!(template, vec![GrammarCategory::Noun, GrammarCategory::Verb]);
    assert!(skeleton.conforms_to_template(&[20, 30], &template));
    assert!(!skeleton.conforms_to_template(&[40, 30], &template));
}

/// The mean of the anchors, or zero without any.
fn anchor_bias(medusa: &AnchoredMedusa) -> Vec<f32> {
    if medusa.anchor_embeddings.is_empty() {
        return vec![0.0];
    }
    let n = medusa.anchor_embeddings.len() as f32;
    (0..medusa.anchor_embeddings[0].len())
        .map(|i| {
            medusa.anchor_embeddings.iter().map(|e| f32::from_bits(e[i])).sum::<f32>() / n
        })
        .collect()
}

#[test]
fn test_medusa_anchoring_bias() {
    let mut medusa = AnchoredMedusa::new(3);
    let base = (anchor_bias(&medusa)[0] * 1000.0) as u32;
    let tree_no_anchor = medusa.generate_anchored_tree(base, 2);
    let token_1_no_anchor = tree_no_anchor.tokens[0];

    medusa.anchor_from_lance(vec![bits(&[0.5; 10]), bits(&[0.5; 10])]);
    let base = (anchor_bias(&medusa)[0] * 1000.0) as u32;
    let tree_anchored = medusa.generate_anchored_tree(base, 2);
    let token_1_anchored = tree_anchored.tokens[0];

    assert_ne!(token_1_no_anchor, token_1_anchored);
    assert_eq!(token_1_anchored, 510);
    assert_eq!(tree_anchored.tokens.len(), 2 + 4 + 8);
    assert_eq!(tree_anchored.parent_indices[0], None);
    assert_eq!(tree_anchored.parent_indices[2], Some(0));
    assert_eq!(medusa.attention_mask.ldb_positions, vec![0, 1]);
}

#[test]
fn large_trees_stop_growing() {
    let medusa = AnchoredMedusa::new(10);
    let tree = medusa.generate_anchored_tree(0, 40);
    assert_eq!(tree.tokens.len(), 40 + 1600);
    for (i, p) in tree.parent_indices.iter().enumerate() {
        assert!(p.map_or(true, |p| p < i));
    }
    assert_eq!(MedusaHead::new(4).predict(7, 3), vec![47, 48, 49]);
    assert_eq!(AnchorMask::new(3).visibility, vec![true, true, true]);
}

// ─── Several drafts at once ──────────────────────────────────────────────────

fn make_path(
    id: usize,
    tokens: Vec<u32>,
    source: DraftSource,
    conf: f32,
    novelty: f32,
    embed: Vec<f32>,
) -> DraftPath {
    DraftPath {
        id,
        tokens,
        source,
        confidence: conf.to_bits(),
        semantic_embedding: bits(&embed),
        novelty_score: novelty.to_bits(),
    }
}

fn similarity(paths: &[DraftPath]) -> Vec<Vec<u32>> {
    let v: Vec<Vec<f32>> = paths
        .iter()
        .map(|p| p.semantic_embedding.iter().map(|b| f32::from_bits(*b)).collect())
        .collect();
    let cos = |a: &[f32], b: &[f32]| -> f32 {
        let dot: f32 = a.iter().zip(b).map(|(x, y)| x * y).sum();
        let na: f32 = a.iter().map(|x| x * x).sum::<f32>().sqrt();
        let nb: f32 = b.iter().map(|x| x * x).sum::<f32>().sqrt();
        dot / (na * nb)
    };
    v.iter().map(|a| v.iter().map(|b| cos(a, b).to_bits()).collect()).collect()
}

fn scores(paths: &[DraftPath]) -> Vec<u32> {
    paths
        .iter()
        .map(|p| (f32::from_bits(p.confidence) + f32::from_bits(p.novelty_score) * 0.5).to_bits())
        .collect()
}

fn collect(explorer: &MultiDraftExplorer, paths: Vec<DraftPath>) -> Vec<DraftPath> {
    let order = explorer.collect_paths(&similarity(&paths), &scores(&paths));
    let mut slots: Vec<Option<DraftPath>> = paths.into_iter().map(Some).collect();
    order.into_iter().map(|i| slots[i].take().unwrap()).collect()
}

#[test]
fn test_multi_draft_explosion_and_selection() {
    let mut explorer = MultiDraftExplorer::new(10);
    let paths = vec![
        make_path(0, vec![1, 2, 3], DraftSource::GoldenCache, 0.95, 0.0, vec![1.0, 0.0]),
        make_path(1, vec![4, 5, 6, 7], DraftSource::RestTrie, 0.70, 0.1, vec![0.0, 1.0]),
        make_path(2, vec![8, 9], DraftSource::CrossDomain, 0.50, 0.9, vec![0.5, 0.5]),
    ];
    let collected = collect(&explorer, paths);
    assert_eq!(collected.len(), 3);
    assert_eq!(collected[0].source, DraftSource::GoldenCache);

    let verification_scores = vec![3, 1, 2];
    let result = explorer.select_winner(collected, &verification_scores);
    assert_eq!(result.winner.source, DraftSource::GoldenCache);
    assert_eq!(result.rejected_paths.len(), 2);
    assert_eq!(explorer.stats.golden_wins, 1);
}

#[test]
fn test_novel_insight_detection() {
    let mut explorer = MultiDraftExplorer::new(5);
    explorer.novelty_threshold = 0.3f32.to_bits();
    let paths = vec![
        make_path(0, vec![1, 2], DraftSource::PromptLookup, 0.9, 0.0, vec![1.0, 0.0]),
        make_path(1, vec![3, 4, 5], DraftSource::CrossDomain, 0.6, 0.8, vec![0.0, 1.0]),
    ];
    let collected = collect(&explorer, paths);
    assert_eq!(collected.len(), 2);
    let result = explorer.select_winner(collected, &vec![3, 1]);
    assert!(result.is_novel_insight);
    assert_eq!(explorer.stats.novel_insights_found, 1);
    assert_eq!(explorer.stats.cross_domain_wins, 1);
    assert!(!explorer.stats_report().is_empty());
}

#[test]
fn test_deduplication() {
    let explorer = MultiDraftExplorer::new(10);
    let paths = vec![
        make_path(0, vec![1, 2], DraftSource::GoldenCache, 0.9, 0.0, vec![1.0, 0.0]),
        make_path(1, vec![1, 2], DraftSource::PromptLookup, 0.8, 0.0, vec![1.0, 0.001]),
        make_path(2, vec![3, 4], DraftSource::RestTrie, 0.7, 0.0, vec![0.0, 1.0]),
    ];
    let deduped = explorer.deduplicate(&similarity(&paths));
    assert_eq!(deduped.len(), 2);
    assert_eq!(deduped, vec![0, 2]);
}

// ─── Trees of continuations ──────────────────────────────────────────────────

fn mock_draft(ctx: &[u32]) -> Vec<(u32, f32)> {
    let seed = ctx.last().copied().unwrap_or(0) as u64;
    (0..4u32)
        .map(|i| {
            let tok =
                ((seed.wrapping_add(i as u64).wrapping_mul(2654435761)) & 0x7FFF) as u32;
            let lp = -(i as f32 + 1.0).ln();
            (tok, lp)
        })
        .collect()
}

fn expand(engine: &mut SpecStreamEngine, context: &Vec<u32>) {
    let root: Vec<(u32, u32)> =
        mock_draft(context).into_iter().map(|(t, lp)| (t, lp.to_bits())).collect();
    engine.begin(context, &root);
    for d in 1..engine.config.depth {
        let start = engine.last_nodes.len() - engine.level.len();
        let candidates: Vec<Vec<(u32, u32)>> = engine
            .level
            .iter()
            .enumerate()
            .map(|(i, path)| {
                let parent = f32::from_bits(engine.last_nodes[start + i].cumulative_log_prob);
                mock_draft(path).into_iter().map(|(t, lp)| (t, (parent + lp).to_bits())).collect()
            })
            .collect();
        engine.extend(d, &candidates);
    }
    engine.finish();
}

#[test]
fn spec_tree_expand_node_count() {
    let mut engine = SpecStreamEngine::new(SpecConfig {
        k_min: 4,
        k_max: 4,
        depth: 2,
        alpha_target: 0.70f32.to_bits(),
        alpha_window: 8,
    });
    let context = vec![1u32, 2, 3];
    expand(&mut engine, &context);
    assert!(engine.last_nodes.len() >= 4);
    assert!(engine.last_nodes.len() <= 12);
    assert_eq!(engine.last_nodes.len(), 12);
    for pair in engine.last_nodes.windows(2) {
        assert!(
            f32::from_bits(pair[0].cumulative_log_prob)
                >= f32::from_bits(pair[1].cumulative_log_prob)
        );
    }
    for node in &engine.last_nodes {
        assert_eq!(node.path[..3], context[..]);
        assert_eq!(node.path.len(), 4 + node.depth as usize);
        assert_eq!(*node.path.last().unwrap(), node.token);
    }
}

fn uniform(token: u32, pos: u64) -> f32 {
    deterministic_uniform(token, pos) as f32 * (1.0 / (1u64 << 53) as f32)
}

fn verify(
    engine: &mut SpecStreamEngine,
    tokens: &Vec<u32>,
    draft_lp: &[f32],
    master_lp: &[f32],
) -> (Vec<u32>, f32) {
    let ratios: Vec<f32> =
        draft_lp.iter().zip(master_lp).map(|(d, m)| (m - d).exp().min(1.0)).collect();
    let draws: Vec<f32> =
        tokens.iter().enumerate().map(|(i, t)| uniform(*t, i as u64)).collect();
    let looked_at = count_looked_at(&bits(&draws), &bits(&ratios));
    let alpha = ratios[..looked_at].iter().sum::<f32>() / tokens.len().max(1) as f32;
    let r = engine.verify(tokens, &bits(&draws), &bits(&ratios), 99, alpha.to_bits());
    let history: Vec<f32> =
        engine.alpha_history.iter().map(|b| f32::from_bits(*b)).collect();
    let mean = history.iter().sum::<f32>() / history.len() as f32;
    let factor = (1.0 - mean / f32::from_bits(engine.config.alpha_target)).clamp(0.0, 1.0);
    let k = engine.config.k_min as f32
        + (engine.config.k_max - engine.config.k_min) as f32 * factor;
    engine.adapt_budget(k.round() as usize);
    assert_eq!(r.pivot, 99);
    (r.accepted, f32::from_bits(r.alpha_sample))
}

#[test]
fn spec_verify_perfect_draft_accepts_all() {
    let mut engine = SpecStreamEngine::new(SpecConfig::default());
    let tokens = vec![10u32, 20, 30, 40];
    let lp = vec![-0.5f32; 4];
    let (accepted, alpha) = verify(&mut engine, &tokens, &lp, &lp);
    assert_eq!(accepted.len(), 4);
    assert!((alpha - 1.0).abs() < 1e-3);
    assert_eq!(engine.current_budget(), 4);
}

#[test]
fn spec_verify_worst_draft_accepts_none() {
    let mut engine = SpecStreamEngine::new(SpecConfig::default());
    let tokens = vec![10u32, 20, 30];
    let (accepted, _) = verify(&mut engine, &tokens, &[0.0; 3], &[-10.0; 3]);
    assert!(accepted.is_empty());
}

#[test]
fn spec_budget_adapts_on_low_alpha() {
    let mut engine = SpecStreamEngine::new(SpecConfig {
        k_min: 4,
        k_max: 32,
        depth: 2,
        alpha_target: 0.70f32.to_bits(),
        alpha_window: 4,
    });
    let tokens = vec![1u32, 2];
    for _ in 0..8 {
        verify(&mut engine, &tokens, &[0.0; 2], &[-10.0; 2]);
    }
    assert!(engine.current_budget() > 4);
    assert_eq!(engine.alpha_history.len(), 4);
}

#[test]
fn deterministic_uniform_range() {
    for t in 0u32..100 {
        for p in 0u64..100 {
            let u = uniform(t, p);
            assert!(u >= 0.0 && u < 1.0);
        }
    }
    assert_eq!(deterministic_uniform(0, 0), 0);
}

#[test]
fn presets_of_the_tree() {
    assert_eq!(SpecConfig::high_throughput().k_max, 32);
    assert_eq!(f32::from_bits(SpecConfig::conservative().alpha_target), 0.65);
    assert_eq!(f32::from_bits(SpecConfig::default().alpha_target), 0.70);
}

#[test]
fn the_tree_narrows_with_its_depth() {
    let engine = SpecStreamEngine::new(SpecConfig::high_throughput());
    let widths: Vec<usize> = (0..10).map(|d| engine.branches_at_depth(d)).collect();
    assert_eq!(widths, vec![8, 4, 2, 2, 1, 1, 1, 1, 1, 1]);
}

// ─── Search ──────────────────────────────────────────────────────────────────

fn search_scores(e: &MctsEngine) -> Vec<u32> {
    (0..e.nodes.len())
        .map(|i| {
            let n = &e.nodes[i];
            let total: u32 = match n.parent {
                Some(p) => e.nodes[p].children.iter().map(|&c| e.nodes[c].visits).sum(),
                None => 0,
            };
            let q = if n.visits > 0 {
                f32::from_bits(n.value) / n.visits as f32
            } else {
                0.0
            };
            let u = f32::from_bits(e.exploration_weight)
                * f32::from_bits(n.prior_prob)
                * (total as f32).sqrt()
                / (1.0 + n.visits as f32);
            (q + u).to_bits()
        })
        .collect()
}

#[test]
fn test_mcts_simulate_mock() {
    let mut engine = MctsEngine::new(1.0f32.to_bits());
    assert_eq!(engine.get_best_move(0), None);
    for _ in 0..10 {
        let leaf = engine.select_leaf(0, &search_scores(&engine));
        let candidates = vec![
            (0u32, 0.5f32.to_bits()),
            (1u32, 0.3f32.to_bits()),
            (2u32, 0.2f32.to_bits()),
        ];
        engine.expand(leaf, &candidates);
        let values: Vec<u32> = engine
            .path_to_root(leaf)
            .iter()
            .map(|&i| (f32::from_bits(engine.nodes[i].value) + 0.8).to_bits())
            .collect();
        engine.backpropagate(leaf, &values);
    }
    assert_eq!(engine.nodes[0].visits, 10);
    assert_eq!(engine.nodes.len(), 31);
    assert!(engine.get_best_move(0).is_some());
    for n in &engine.nodes {
        if let Some(p) = n.parent {
            assert!(n.visits <= engine.nodes[p].visits);
        }
    }
    engine.reset();
    assert_eq!(engine.nodes.len(), 1);
}

#[test]
fn the_last_of_the_most_visited_moves_is_the_best() {
    let mut engine = MctsEngine::new(0);
    engine.expand(0, &vec![(7, 0), (8, 0)]);
    assert_eq!(engine.get_best_move(0), Some(8));
    engine.backpropagate(1, &vec![0, 0]);
    assert_eq!(engine.get_best_move(0), Some(7));
    assert_eq!(engine.select_best_child(0, &bits(&[0.0, 1.0, 2.0])), Some(2));
    assert_eq!(engine.select_best_child(0, &bits(&[0.0, 2.0, 2.0])), Some(1));
    assert_eq!(
        engine.select_best_child(0, &bits(&[0.0, f32::NAN, f32::NEG_INFINITY])),
        None
    );
}

// ─── Buckets ─────────────────────────────────────────────────────────────────

fn make_embeddings(vocab: usize, dim: usize) -> Vec<f32> {
    (0..vocab * dim).map(|i| ((i as f32) * 0.01).sin()).collect()
}

fn hashes_of(v: &[f32], tables: usize, planes: usize) -> Vec<u64> {
    (0..tables)
        .map(|t| {
            let dots: Vec<u32> = (0..planes)
                .map(|h| {
                    let dot: f32 = v
                        .iter()
                        .enumerate()
                        .map(|(d, x)| {
                            let seed = (t * 10007 + h * 1009 + d * 101 + 7) as f64;
                            x * ((seed.sin() * 43758.5453).fract() as f32)
                        })
                        .sum();
                    dot.to_bits()
                })
                .collect();
            compute_hash(&dots)
        })
        .collect()
}

fn index(emb: &[f32], vocab: usize, dim: usize, tables: usize, planes: usize) -> LshVocabIndex {
    let hashes: Vec<Vec<u64>> =
        (0..vocab).map(|t| hashes_of(&emb[t * dim..(t + 1) * dim], tables, planes)).collect();
    LshVocabIndex::build(&hashes, dim, tables, planes)
}

#[test]
fn test_lsh_build_and_lookup() {
    let dim = 64;
    let vocab = 200;
    let emb = make_embeddings(vocab, dim);
    let index = index(&emb, vocab, dim, 6, 12);
    let candidates = index.lookup(&hashes_of(&emb[0..dim], 6, 12));
    assert!(!candidates.is_empty());
    assert!(candidates.contains(&0));
}

#[test]
fn test_lsh_contains_correct_token() {
    let dim = 32;
    let vocab = 500;
    let emb = make_embeddings(vocab, dim);
    let index = index(&emb, vocab, dim, 8, 10);
    for q in [0, 100, 250, 499] {
        let candidates = index.lookup(&hashes_of(&emb[q * dim..(q + 1) * dim], 8, 10));
        assert!(candidates.contains(&q));
    }
}

#[test]
fn test_lsh_avg_bucket_reasonable() {
    let dim = 64;
    let vocab = 1000;
    let emb = make_embeddings(vocab, dim);
    let index = index(&emb, vocab, dim, 6, 12);
    let total: usize = index.buckets.iter().flat_map(|b| b.values()).map(|v| v.len()).sum();
    let count = index.buckets.iter().map(|b| b.len()).sum::<usize>().max(1);
    let avg = total as f64 / count as f64;
    assert!(avg > 0.0 && avg < vocab as f64);
    assert_eq!(total, 6 * vocab);
}

#[test]
fn hashes_set_a_bit_for_each_side() {
    assert_eq!(compute_hash(&bits(&[1.0, -1.0, 0.0, -0.0])), 0b1101);
    assert_eq!(compute_hash(&vec![]), 0);
}

// ─── Sampling ────────────────────────────────────────────────────────────────

fn sampler(temperature: f32, top_k: usize, top_p: f32, penalty: f32) -> Sampler {
    Sampler::new(SamplerConfig {
        temperature: temperature.to_bits(),
        top_k,
        top_p: top_p.to_bits(),
        repetition_penalty: penalty.to_bits(),
        use_conformal: false,
    })
}

/// Samples as a caller does, with `draw` in place of chance.
fn sample(s: &Sampler, logits: &[f32], context: &[u32], draw: f32) -> Option<u32> {
    let mut logits = logits.to_vec();
    if s.penalises() {
        let p = f32::from_bits(s.config.repetition_penalty);
        for i in s.penalised(logits.len(), &context.to_vec()) {
            logits[i] = if logits[i] > 0.0 { logits[i] / p } else { logits[i] * p };
        }
    }
    match s.sample(&bits(&logits)).ok()? {
        SampleStep::Greedy(t) => Some(t),
        SampleStep::Draw { rescale } => {
            if rescale {
                let t = f32::from_bits(s.config.temperature);
                for l in logits.iter_mut() {
                    *l /= t;
                }
            }
            let max = logits.iter().cloned().fold(f32::NEG_INFINITY, f32::max);
            let exps: Vec<f32> = logits.iter().map(|l| (l - max).exp()).collect();
            let sum: f32 = exps.iter().sum();
            let probs: Vec<f32> = exps.iter().map(|e| e / sum).collect();
            let mut c = s.candidates(&bits(&probs));
            let mut acc = 0.0;
            let running: Vec<f32> = c
                .iter()
                .map(|&i| {
                    acc += probs[i];
                    acc
                })
                .collect();
            c.truncate(s.nucleus(&bits(&running)));
            let total: f32 = c.iter().map(|&i| probs[i]).sum();
            let mut left = draw * total;
            let mut drawn = None;
            for (k, &i) in c.iter().enumerate() {
                left -= probs[i];
                if left <= 0.0 {
                    drawn = Some(k);
                    break;
                }
            }
            Some(s.pick(&c, drawn))
        }
    }
}

#[test]
fn test_greedy_returns_argmax() {
    let s = sampler(0.0, 0, 1.0, 1.0);
    assert_eq!(sample(&s, &[0.1, 5.0, 2.0, -1.0], &[], 0.5), Some(1));
}

#[test]
fn test_temperature_sharpens() {
    let hot = sampler(2.0, 0, 1.0, 1.0);
    let cold = sampler(0.1, 0, 1.0, 1.0);
    let logits = [1.0, 1.2];
    assert!(sample(&hot, &logits, &[], 0.3).is_some());
    assert_eq!(sample(&cold, &logits, &[], 0.3), Some(1));
    assert!(matches!(
        sampler(1.0, 0, 1.0, 1.0).sample(&bits(&logits)),
        Ok(SampleStep::Draw { rescale: false })
    ));
}

#[test]
fn test_top_k_truncates() {
    let s = sampler(1.0, 1, 1.0, 1.0);
    for draw in [0.0, 0.5, 0.99] {
        assert_eq!(sample(&s, &[1.0, 10.0, 2.0, 3.0], &[], draw), Some(1));
    }
}

#[test]
fn test_top_p_nucleus() {
    let s = sampler(1.0, 0, 0.5, 1.0);
    for draw in [0.0, 0.5, 0.99] {
        assert_eq!(sample(&s, &[0.0, 20.0, 0.0, 0.0], &[], draw), Some(1));
    }
}

#[test]
fn test_repetition_penalty() {
    let s = sampler(0.0, 0, 1.0, 2.0);
    assert_eq!(sample(&s, &[1.0, 10.0, 8.0, 1.0], &[1], 0.5), Some(2));
}

#[test]
fn test_empty_logits_errors() {
    let s = Sampler::new(SamplerConfig::default());
    let e = s.sample(&vec![]).err().unwrap();
    assert_eq!(e.message(), "Sem logits para amostragem");
}

#[test]
fn candidates_keep_their_order_where_probabilities_are_not_numbers() {
    let probs = bits(&[f32::NAN, f32::NAN, f32::NAN]);
    assert_eq!(sampler(1.0, 2, 1.0, 1.0).candidates(&probs), vec![0, 1]);
    assert_eq!(sampler(1.0, 0, 1.0, 1.0).candidates(&bits(&[0.1, 0.7, 0.2])), vec![1, 2, 0]);
}
