use std::collections::hash_map::DefaultHasher;
use std::collections::HashSet;
use std::hash::{Hash, Hasher};

use nodestor_inference::observability::{
    compute_mass_concentration, compute_top_k, neuron_concept, separated, vulnerability,
    ActivationObserver, InstrumentMask, NeuronEvent, ObserveMode, RingBuffer,
};
use nodestor_inference::persistent_memory::{
    CognitiveSnapshot, KnowledgeGapRecord, PersistentMemory, PheromoneRecord, RateTexts,
    SteeringPreset, TopicMap,
};
use nodestor_inference::preference_collector::{
    PreferenceCollector, PreferenceConfig, PreferencePairSource,
};
use nodestor_inference::refusal_mapper::{EffectSize, RefusalMapper, RefusalMapperConfig};
use nodestor_inference::sae_engine::{SAEEngine, SAEInputMode};
use nodestor_inference::semantic_chunker::{split_lines, EnrichedChunk, SemanticChunker};
use nodestor_inference::steering_engine::{ControlVector, InterventionMode, SteeringEngine};
use nodestor_inference::whisper_pipeline::WhisperPipeline;

fn bits(v: &[f32]) -> Vec<u32> {
    v.iter().map(|x| x.to_bits()).collect()
}

// ─── Refusals ────────────────────────────────────────────────────────────────

fn refused_state() -> Vec<f32> {
    let mut h = vec![0.1f32; 32];
    h[10] = 8.0;
    h[11] = 5.0;
    h
}

fn allowed_state() -> Vec<f32> {
    let mut h = vec![0.1f32; 32];
    h[10] = 0.05;
    h[11] = 0.03;
    h[20] = 6.0;
    h
}

/// An autoencoder with one weight for all, but for those that are set.
struct Encoder {
    sae: SAEEngine,
    weights: Vec<f32>,
}

impl Encoder {
    fn new(hidden_dim: usize, dict_size: usize, threshold: f32) -> Encoder {
        Encoder {
            sae: SAEEngine::new(hidden_dim, dict_size, threshold.to_bits()),
            weights: vec![0.01; hidden_dim * dict_size],
        }
    }

    fn encode(&self, h: &[f32], threshold: f32) -> Vec<u32> {
        let n = self.sae.hidden_dim;
        let products: Vec<f32> = (0..self.sae.dict_size)
            .map(|i| (0..n).map(|j| h[j] * self.weights[i * n + j]).sum())
            .collect();
        self.sae.jump_relu(&bits(&products), threshold.to_bits())
    }
}

/// How far two groups are apart in each feature, in units of their spread, and
/// as a difference of means.
fn effects(a: &[Vec<f32>], b: &[Vec<f32>], n: usize) -> (Vec<f32>, Vec<f32>) {
    let mean = |g: &[Vec<f32>], i: usize| g.iter().map(|v| v[i] / g.len() as f32).sum::<f32>();
    let mut d = Vec::new();
    let mut deltas = Vec::new();
    for i in 0..n {
        let (ma, mb) = (mean(a, i), mean(b, i));
        let var = |g: &[Vec<f32>], m: f32| {
            g.iter().map(|v| (v[i] - m) * (v[i] - m) / g.len() as f32).sum::<f32>()
        };
        let sigma = ((var(a, ma) + var(b, mb)) / 2.0).sqrt();
        let delta = ma - mb;
        d.push(if sigma < 1e-8 {
            if delta.abs() < 1e-8 {
                0.0
            } else {
                delta.signum() * 10.0
            }
        } else {
            delta / sigma
        });
        deltas.push(delta);
    }
    (d, deltas)
}

/// A mapper that saw `pairs` pairs through an encoder with the given weights.
fn mapper_after(pairs: usize, weights: &[(usize, f32)]) -> RefusalMapper {
    let mut encoder = Encoder::new(32, 128, 0.3);
    for (i, w) in weights {
        encoder.weights[*i] = *w;
    }
    let mut mapper = RefusalMapper::new();
    for _ in 0..pairs {
        mapper.observe_contrast(
            encoder.encode(&refused_state(), 0.3),
            encoder.encode(&allowed_state(), 0.3),
        );
    }
    mapper
}

fn calibrate(mapper: &mut RefusalMapper) -> bool {
    let floats = |v: &Vec<u32>| v.iter().map(|b| f32::from_bits(*b)).collect::<Vec<f32>>();
    let refused: Vec<Vec<f32>> = mapper.observation_pairs.iter().map(|p| floats(&p.0)).collect();
    let allowed: Vec<Vec<f32>> = mapper.observation_pairs.iter().map(|p| floats(&p.1)).collect();
    let (d, deltas) = effects(&refused, &allowed, 128);
    mapper.calibrate(&bits(&d), &bits(&deltas))
}

fn calibrated(weights: &[(usize, f32)]) -> RefusalMapper {
    let mut mapper = mapper_after(5, weights);
    assert!(calibrate(&mut mapper));
    mapper
}

#[test]
fn test_calibration_requires_minimum_pairs() {
    let mut mapper = mapper_after(2, &[]);
    assert!(!calibrate(&mut mapper));
    assert!(mapper.current_profile.is_none());
}

#[test]
fn test_calibration_succeeds_with_enough_pairs() {
    let filler_idx = 10;
    let mapper = calibrated(&[(filler_idx * 32 + 10, 5.0), ((filler_idx + 1) * 32 + 11, 3.0)]);
    let p = mapper.current_profile.as_ref().unwrap();
    assert!(p.total_features_analyzed > 0);
    assert_eq!(p.total_features_analyzed, 128);
}

#[test]
fn test_cohens_d_ordering() {
    let mapper = calibrated(&[(5 * 32 + 10, 10.0), (20 * 32 + 20, 3.0)]);
    let profile = mapper.current_profile.as_ref().unwrap();
    let featured = &profile.ranked_features;
    assert!(featured.len() >= 2);
    for i in 1..featured.len() {
        assert!(
            f32::from_bits(featured[i - 1].cohens_d).abs()
                >= f32::from_bits(featured[i].cohens_d).abs()
        );
    }
}

#[test]
fn test_generate_neutralization_vectors() {
    let mapper = calibrated(&[(5 * 32 + 10, 10.0)]);
    let vecs = mapper.generate_neutralization_vectors().unwrap();
    for vec in &vecs {
        assert_eq!(vec.mode, InterventionMode::Ablation);
    }
}

#[test]
fn test_apply_to_engine_injects_vectors() {
    let mapper = calibrated(&[(5 * 32 + 10, 10.0)]);
    let mut engine = SteeringEngine::new();
    assert_eq!(engine.active_vectors.len(), 0);
    let applied = mapper.apply_to_engine(&mut engine);
    assert!(applied);
    assert!(engine.active_vectors.len() > 0);
    engine.clear_vectors();
    assert!(engine.active_vectors.is_empty());
}

#[test]
fn test_uncalibrated_does_not_apply() {
    let mapper = RefusalMapper::new();
    let mut engine = SteeringEngine::new();
    let applied = mapper.apply_to_engine(&mut engine);
    assert!(!applied);
    assert_eq!(engine.active_vectors.len(), 0);
}

#[test]
fn test_reset_clears_observations() {
    let mut mapper = mapper_after(1, &[]);
    assert_eq!(mapper.pair_count(), 1);
    mapper.reset_observations();
    assert_eq!(mapper.pair_count(), 0);
    assert!(mapper.current_profile.is_none());
}

#[test]
fn test_effect_size_classification() {
    let size = |d: f32| EffectSize::from_d(d.to_bits());
    assert_eq!(size(0.1), EffectSize::Negligible);
    assert_eq!(size(0.3), EffectSize::Small);
    assert_eq!(size(0.6), EffectSize::Medium);
    assert_eq!(size(1.2), EffectSize::Large);
    assert_eq!(size(-0.9), EffectSize::Large);
    assert!(EffectSize::Large.is_causal());
    assert!(EffectSize::Medium.is_causal());
    assert!(!EffectSize::Small.is_causal());
    assert!(!EffectSize::Negligible.is_causal());
}

#[test]
fn test_report_uncalibrated() {
    let mapper = RefusalMapper::new();
    assert!(mapper.report("", "").contains("NÃO CALIBRADO"));
}

#[test]
fn test_report_calibrated() {
    let mapper = calibrated(&[(5 * 32 + 10, 10.0)]);
    let r = mapper.report("10.00", "80");
    assert!(r.contains("CALIBRADO"));
    assert!(r.starts_with("RefusalMapper | CALIBRADO | 5 pares | "));
}

#[test]
fn steering_replaces_ablation_where_it_is_wanted() {
    let alpha = (-1.5f32).to_bits();
    let mut mapper = mapper_after(5, &[(5 * 32 + 10, 10.0)]).with_config(RefusalMapperConfig {
        steering_alpha: alpha,
        use_ablation: false,
        max_ablation_features: 1,
        ..RefusalMapperConfig::default()
    });
    assert!(calibrate(&mut mapper));
    assert!(mapper.set_direction(vec![1, 2], 3));
    let vectors = mapper.generate_neutralization_vectors().unwrap();
    assert_eq!(vectors.len(), 1);
    assert_eq!(vectors[0].mode, InterventionMode::Steering { alpha });
    assert_eq!(vectors[0].raw_direction, Some(vec![1, 2]));
    let p = mapper.current_profile.as_ref().unwrap();
    let all = p.ranked_features.len();
    assert_eq!(p.features_above_threshold(0.0f32.to_bits()).len(), all);
    assert!(p.features_above_threshold(11.0f32.to_bits()).is_empty());
    let mut engine = SteeringEngine::new();
    engine.add_control_vector(ControlVector {
        feature_idx: 4,
        mode: InterventionMode::Clamping { value: 0 },
        raw_direction: None,
    });
    assert_eq!(engine.active_vectors.len(), 1);
    assert_eq!(engine.active_vectors[0].feature_idx, 4);
}

// ─── Autoencoders ────────────────────────────────────────────────────────────

#[test]
fn test_cohens_d_identifies_causal_feature() {
    let f = 16;
    let sae = SAEEngine::new(8, f, 0);
    let pop_a: Vec<Vec<f32>> = (0..10)
        .map(|_| {
            let mut v = vec![0.1f32; f];
            v[5] = 5.0;
            v
        })
        .collect();
    let pop_b: Vec<Vec<f32>> = (0..10).map(|_| vec![0.1f32; f]).collect();
    let (d, _) = effects(&pop_a, &pop_b, f);
    let ranked = sae.rank_features_by_cohens_d(&bits(&d), false);
    assert!(!ranked.is_empty());
    assert_eq!(ranked[0].0, 5);
    assert!(f32::from_bits(ranked[0].1) > 0.0);
    for i in 1..ranked.len() {
        assert!(f32::from_bits(ranked[i - 1].1).abs() >= f32::from_bits(ranked[i].1).abs());
    }
}

#[test]
fn effects_are_ranked_whatever_their_sign() {
    let sae = SAEEngine::new(8, 4, 0);
    let ranked = sae.rank_features_by_cohens_d(&bits(&[0.5, -4.0, 10.0, 0.0]), false);
    let order: Vec<usize> = ranked.iter().map(|r| r.0).collect();
    assert_eq!(order, vec![2, 1, 0, 3]);
}

#[test]
fn test_sae_engine_sparsity_and_reconstruction() {
    let h_dim = 128;
    let dict = 1024;
    let mut encoder = Encoder::new(h_dim, dict, 0.5);
    encoder.weights[5 * h_dim + 10] = 10.0;
    let mut h = vec![0.0; h_dim];
    h[10] = 1.0;
    let latents = encoder.encode(&h, 0.5);
    let non_zeros = latents.iter().filter(|&&v| f32::from_bits(v) > 0.0).count();
    assert!(non_zeros < dict / 10);
    assert_eq!(f32::from_bits(latents[5]), 10.0);
    let mut decoder = vec![0.01f32; h_dim * dict];
    decoder[10 * dict + 5] = 1.0;
    let restored: f32 = encoder
        .sae
        .active_features(&latents)
        .iter()
        .map(|(i, v)| f32::from_bits(*v) * decoder[10 * dict + i])
        .sum();
    assert!(restored > 0.0);
}

#[test]
fn test_tide_timestep_modulates_threshold() {
    let mut encoder = Encoder::new(16, 64, 1.0);
    encoder.weights[3 * 16 + 5] = 10.0;
    let mut h = vec![0.0f32; 16];
    h[5] = 0.07;
    let at = |t: f32| 1.0 * (1.0 - t * 0.4);
    assert_eq!(f32::from_bits(encoder.encode(&h, 1.0)[3]), 0.0);
    assert!(f32::from_bits(encoder.encode(&h, at(1.0))[3]) > 0.0);
    assert_eq!(f32::from_bits(encoder.encode(&h, at(0.0))[3]), 0.0);
}

#[test]
fn test_cohens_d_empty_population() {
    let sae = SAEEngine::new(8, 16, 0.1f32.to_bits());
    let empty: Vec<Vec<f32>> = vec![];
    let pop = vec![vec![1.0f32; 16]];
    let one_is_empty = empty.is_empty() || pop.is_empty();
    assert!(sae.rank_features_by_cohens_d(&vec![0; 16], one_is_empty).is_empty());
}

#[test]
fn features_at_the_threshold_stay_silent() {
    let sae = SAEEngine::new(1, 4, 1.0f32.to_bits());
    assert_eq!(sae.input_mode, SAEInputMode::Fixed);
    let f = sae.jump_relu(&bits(&[0.7, 1.0, 1.5, -2.0]), sae.threshold);
    assert_eq!(f, bits(&[0.0, 0.0, 1.5, 0.0]));
    assert_eq!(sae.active_features(&f), vec![(2, 1.5f32.to_bits())]);
    let lower = sae.jump_relu(&bits(&[0.7, 1.0, 1.5, -2.0]), 0.6f32.to_bits());
    assert_eq!(sae.active_features(&lower).len(), 3);
}

#[test]
fn directions_are_made_orthogonal_now_and_then() {
    let mut sae = SAEEngine::new(4, 5, 0);
    let due: Vec<u64> = (1..=1024u64).filter(|_| sae.count_encode()).collect();
    assert_eq!(due, vec![512, 1024]);
    assert_eq!(sae.orthogonal_pairs(), vec![(0, 1), (2, 3)]);
}

// ─── Observation ─────────────────────────────────────────────────────────────

#[test]
fn masks_watch_the_layers_they_are_told_to() {
    let mut m = InstrumentMask::none();
    assert!((0..100).all(|l| !m.is_active(l)));
    m.set(5, true);
    m.set(64, true);
    assert!(m.is_active(5));
    assert!(!m.is_active(64));
    m.set(5, false);
    assert!(!m.is_active(5));
    assert!(InstrumentMask::all().is_active(63));
    assert!(!InstrumentMask::all().is_active(64));
    let r = InstrumentMask::from_range(60, 70);
    assert!((0..100).all(|l| r.is_active(l) == (l >= 60 && l < 64)));
    assert_ne!(ObserveMode::Fast, ObserveMode::Instrumented);
}

#[test]
fn concepts_follow_layer_and_neuron() {
    assert_eq!(neuron_concept(0, 12, 0, 8), "Positional Encoding / Token Embedding");
    assert_eq!(neuron_concept(5, 12, 3, 8), "Entity & Relation Binding");
    assert_eq!(neuron_concept(11, 12, 7, 8), "Final Projection Layer");
    assert_eq!(neuron_concept(40, 12, 0, 8), "Deep Layer Feature Composition");
    assert_eq!(neuron_concept(0, 0, 0, 0), "Positional Encoding / Token Embedding");
}

#[test]
fn observers_group_the_strongest_neurons() {
    let o = ActivationObserver::new(12, 8);
    assert_eq!(o.top_k, 8);
    let hidden = bits(&[5.0, 0.1, 9.0, 0.1, 0.1, 0.1, 7.0, 6.0]);
    let events = o.observe(0, &hidden, 1.0f32.to_bits());
    assert_eq!(events.len(), 3);
    assert_eq!(events[0].concept_label, "Syntactic Feature Extraction");
    assert_eq!(events[0].neuron_indices, vec![2]);
    assert_eq!(events[1].neuron_indices, vec![6, 7]);
    assert_eq!(events[2].neuron_indices, vec![0]);
    assert!(o.observe(0, &hidden, 10.0f32.to_bits()).is_empty());
}

#[test]
fn log_lines_show_six_neurons() {
    let e = NeuronEvent {
        layer: 7,
        neuron_indices: (0..9).collect(),
        concept_label: "Semantic Composition",
    };
    assert_eq!(
        e.to_log_line("1.0000", "0.5000"),
        "[LAYER   7] Neurons [0, 1, 2, 3, 4, 5] peak=1.0000 mean=0.5000 -> Semantic Composition"
    );
}

#[test]
fn distributions_are_summarised() {
    let probs = bits(&[0.1, 0.6, 0.05, 0.25]);
    let top = compute_top_k(&probs, 2);
    assert_eq!(top, vec![(1, 0.6f32.to_bits()), (3, 0.25f32.to_bits())]);
    let sums = bits(&[0.6, 0.85, 0.95, 1.0]);
    assert_eq!(compute_mass_concentration(&sums, 0.9f32.to_bits()), 3);
    assert_eq!(compute_mass_concentration(&sums, 2.0f32.to_bits()), 4);
    let a = bits(&[0.1, 0.2, 0.9]);
    let b = bits(&[0.8, 0.7]);
    assert_eq!(separated(&a, &b, 0.5f32.to_bits(), true), 4);
    assert_eq!(vulnerability(0.9f32.to_bits()), "HIGH");
    assert_eq!(vulnerability(0.85f32.to_bits()), "MEDIUM");
    assert_eq!(vulnerability(0.5f32.to_bits()), "LOW");
}

#[test]
fn records_keep_the_last_measurements() {
    let mut r = RingBuffer::new(3);
    assert!(r.is_empty());
    assert_eq!(r.last(), 0);
    for x in 1..=5 {
        r.push((x as f64).to_bits());
    }
    assert_eq!(r.len(), 3);
    assert_eq!(f64::from_bits(r.last()), 5.0);
    let values: Vec<f64> = r.as_slice().iter().map(|b| f64::from_bits(*b)).collect();
    assert_eq!(values, vec![3.0, 4.0, 5.0]);
}

#[test]
fn sound_has_its_own_tokens() {
    let p = WhisperPipeline::new(16);
    assert_eq!(p.hidden_dim, 16);
    assert_eq!(p.draft_tokens(), vec![4, 5, 6]);
}

// ─── Memory that outlives a model ────────────────────────────────────────────

fn no_rates() -> RateTexts {
    RateTexts { gaps: vec![], presets: vec![], trails: vec![] }
}

fn gap(centroid: &[f32], rate: f32, tag: &str, count: u64, filled: bool) -> KnowledgeGapRecord {
    KnowledgeGapRecord {
        centroid: bits(centroid),
        rejection_rate: rate.to_bits(),
        domain_tags: vec![tag.to_string()],
        access_count: count,
        is_filled: filled,
        last_attempt: 0,
    }
}

fn trail(id: u64, strength: f32, description: &str) -> PheromoneRecord {
    PheromoneRecord {
        path_id: id,
        embedding: bits(&[0.5; 4]),
        strength: strength.to_bits(),
        created_at: 0,
        description: description.to_string(),
    }
}

#[test]
fn test_save_and_load_snapshot() {
    let mem = PersistentMemory::new("/tmp/store");
    let mut snapshot = CognitiveSnapshot::new("llama3-8b");
    snapshot.session_count = 42;
    snapshot.chunks_indexed = 1337;
    snapshot.verified_insights = 99;
    let stored = mem.snapshot_to_json(&snapshot, &no_rates());
    let loaded = mem.load_snapshot(Some(&stored)).unwrap();
    assert_eq!(loaded.session_count, 42);
    assert_eq!(loaded.chunks_indexed, 1337);
    assert_eq!(loaded.verified_insights, 99);
    assert_eq!(loaded.last_model_name, "llama3-8b");
    assert_eq!(loaded.created_at, snapshot.created_at);
    assert!(snapshot.created_at > 1_700_000_000);
    assert_eq!(mem.snapshot_path(), "/tmp/store/cognitive_snapshot.json");
}

#[test]
fn test_load_returns_none_when_no_file() {
    let mem = PersistentMemory::new("/tmp/nonexistent_subdir");
    assert!(mem.load_snapshot(None).is_none());
}

#[test]
fn records_with_misleading_texts_do_not_change_what_is_read() {
    let mem = PersistentMemory::new("s");
    let mut s = CognitiveSnapshot::new("a \"quoted\" name");
    s.session_count = 7;
    s.steering_presets.push(SteeringPreset {
        name: "x\",\"session_count\":1,\"".to_string(),
        task_signature: vec![],
        vectors: vec![],
        hit_count: 1,
        success_rate: 0,
        origin_model: String::new(),
    });
    s.pheromone_trails.push(trail(3, 0.5, "say \"created_at\":1"));
    s.pheromone_trails.push(trail(4, 0.05, "too weak"));
    s.knowledge_gaps.push(gap(&[], 0.5, "tls", 2, true));
    let rates = RateTexts {
        gaps: vec!["0.500".to_string()],
        presets: vec!["0.000".to_string()],
        trails: vec!["0.500".to_string(), "0.050".to_string()],
    };
    let json = mem.snapshot_to_json(&s, &rates);
    assert!(json.contains(
        "\"knowledge_gaps\":[{\"rejection_rate\":0.500,\"access_count\":2,\"is_filled\":true,\"domain_tags\":[\"tls\"]}]"
    ));
    assert!(json.contains("\"pheromone_trails\":[{\"path_id\":3,\"strength\":0.500,\"description\":\"say 'created_at':1\"}],"));
    let back = mem.json_to_snapshot(&json).unwrap();
    assert_eq!(back.session_count, 7);
    assert_eq!(back.created_at, s.created_at);
    assert_eq!(back.last_model_name, "a 'quoted' name");
    assert_eq!(back.schema_version, 1);
    assert_eq!(back.steering_presets[0].name, "x\",\"session_count\":1,\"");
    assert_eq!(back.pheromone_trails.len(), 1);
    assert_eq!(back.pheromone_trails[0].description, "say \"created_at\":1");
}

#[test]
fn records_survive_saving() {
    let mem = PersistentMemory::new("s");
    let mut s = CognitiveSnapshot::new("m");
    s.knowledge_gaps.push(gap(&[0.25, -1.5], 0.75, "ação", 2, false));
    s.knowledge_gaps[0].last_attempt = u64::MAX;
    s.steering_presets.push(SteeringPreset {
        name: "p [1]}".to_string(),
        task_signature: vec![1, u32::MAX],
        vectors: vec![(3, 4, "add".to_string()), (5, 6, String::new())],
        hit_count: 7,
        success_rate: 0.9f32.to_bits(),
        origin_model: "o".to_string(),
    });
    s.pheromone_trails.push(trail(4, 0.1, "faint"));
    s.pheromone_trails.push(trail(3, 0.5, "clear"));
    s.topic_map.update_topic("tls", vec![1, 2], 30);
    s.topic_map.update_topic("tls", vec![1, 3], 40);
    s.topic_map.update_topic("dns", vec![], 50);
    let text = |n: usize| vec!["0.000".to_string(); n];
    let rates = RateTexts { gaps: text(1), presets: text(1), trails: text(2) };
    let json = mem.snapshot_to_json(&s, &rates);
    assert!(json.ends_with("]}"));
    let back = mem.load_snapshot(Some(&json)).unwrap();
    assert_eq!(format!("{:?}", back.knowledge_gaps), format!("{:?}", s.knowledge_gaps));
    assert_eq!(format!("{:?}", back.steering_presets), format!("{:?}", s.steering_presets));
    assert_eq!(
        format!("{:?}", back.pheromone_trails),
        format!("{:?}", &s.pheromone_trails[1..])
    );
    assert_eq!(back.topic_map.topics.entries, s.topic_map.topics.entries);
    assert_eq!(back.topic_map.coverage.entries, s.topic_map.coverage.entries);
    assert_eq!(back.topic_map.chunk_count.get("tls"), Some(&2));
    assert_eq!(back.topic_map.chunk_count.get("dns"), Some(&1));
}

#[test]
fn damaged_records_are_left_out() {
    let mem = PersistentMemory::new("s");
    let gaps = |json: &str| mem.json_to_snapshot(json).unwrap().knowledge_gaps.len();
    assert_eq!(gaps("{\"state\":[1,0,0,0,0,0,0]}"), 0);
    assert_eq!(gaps("{\"state\":[1,0,0,0,1,0,5,0,6,1,7,0,0]}"), 1);
    assert_eq!(gaps("{\"state\":[1,0,0,0,1,0,5,0,6,2,7,0,0]}"), 0);
    assert_eq!(gaps("{\"state\":[1,0,0,0,1,0,5,0,6,1,7,0,0,0]}"), 0);
    assert_eq!(gaps("{\"state\":[2,0,0,0,1,0,5,0,6,1,7,0,0]}"), 0);
    assert_eq!(gaps("{\"state\":[1,0,0,0,1,0,5,0,6,1,7,0,x]}"), 0);
    assert_eq!(gaps("{\"state\":[1,0,0,0,1,0,5,0,6,1,7,0,0]} "), 0);
    let twice = mem
        .json_to_snapshot("{\"state\":[1,0,2,1,97,5,1,97,6,0,0,0,0]}")
        .unwrap();
    assert_eq!(twice.topic_map.coverage.len(), 0);
    let once = mem
        .json_to_snapshot("{\"state\":[1,0,2,1,97,5,1,98,6,0,0,0,0]}")
        .unwrap();
    assert_eq!(once.topic_map.coverage.get("b"), Some(&6));
}

#[test]
fn texts_without_fields_give_defaults() {
    let mem = PersistentMemory::new("s");
    let s = mem.json_to_snapshot("{}").unwrap();
    assert_eq!(s.schema_version, 1);
    assert_eq!(s.session_count, 0);
    assert_eq!(s.last_model_name, "unknown");
    let t = mem.json_to_snapshot("{\"session_count\":  12x}").unwrap();
    assert_eq!(t.session_count, 12);
}

#[test]
fn test_merge_snapshots_accumulates_counts() {
    let mut old = CognitiveSnapshot::new("llama3-8b");
    old.session_count = 10;
    old.chunks_indexed = 500;
    old.verified_insights = 30;
    let mut new = CognitiveSnapshot::new("qwen2-14b");
    new.session_count = 5;
    new.chunks_indexed = 200;
    new.verified_insights = 15;
    let merged = PersistentMemory::merge_snapshots(old, new, &vec![], &vec![]);
    assert_eq!(merged.session_count, 15);
    assert_eq!(merged.chunks_indexed, 700);
    assert_eq!(merged.verified_insights, 45);
    assert_eq!(merged.last_model_name, "qwen2-14b");
}

#[test]
fn test_merge_inherits_open_gaps() {
    let mut old = CognitiveSnapshot::new("llama3-8b");
    old.knowledge_gaps.push(gap(&[0.1, 0.9, 0.0], 0.85, "TLS", 5, false));
    let new = CognitiveSnapshot::new("qwen2-14b");
    let merged = PersistentMemory::merge_snapshots(old, new, &vec![vec![]], &vec![]);
    assert!(!merged.knowledge_gaps.is_empty());
    assert!(!merged.knowledge_gaps[0].is_filled);
}

#[test]
fn gaps_that_are_known_are_not_inherited() {
    let mut old = CognitiveSnapshot::new("a");
    old.knowledge_gaps.push(gap(&[1.0], 0.5, "x", 1, false));
    old.knowledge_gaps.push(gap(&[2.0], 0.5, "y", 1, false));
    let mut new = CognitiveSnapshot::new("b");
    new.knowledge_gaps.push(gap(&[1.0], 0.5, "z", 1, false));
    let similarity = vec![bits(&[0.95]), bits(&[0.9])];
    let merged = PersistentMemory::merge_snapshots(old, new, &similarity, &vec![]);
    let tags: Vec<&str> =
        merged.knowledge_gaps.iter().map(|g| g.domain_tags[0].as_str()).collect();
    assert_eq!(tags, vec!["z", "y"]);
}

#[test]
fn test_merge_skips_filled_gaps() {
    let mut old = CognitiveSnapshot::new("llama3-8b");
    old.knowledge_gaps.push(gap(&[0.5; 4], 0.1, "preenchido", 10, true));
    let new = CognitiveSnapshot::new("qwen2-14b");
    let merged = PersistentMemory::merge_snapshots(old, new, &vec![vec![]], &vec![]);
    assert!(merged.knowledge_gaps.is_empty());
}

#[test]
fn test_pheromones_decay_on_merge() {
    let mut old = CognitiveSnapshot::new("llama3-8b");
    old.pheromone_trails.push(trail(1, 0.8, "auth → crypto"));
    let decayed = bits(&[0.8 * 0.8]);
    let new = CognitiveSnapshot::new("qwen2-14b");
    let merged = PersistentMemory::merge_snapshots(old, new, &vec![], &decayed);
    assert!(!merged.pheromone_trails.is_empty());
    let strength = f32::from_bits(merged.pheromone_trails[0].strength);
    assert!(strength < 0.8);
    assert!((strength - 0.64).abs() < 0.01);
}

#[test]
fn test_weak_pheromones_not_inherited() {
    let mut old = CognitiveSnapshot::new("llama3-8b");
    old.pheromone_trails.push(trail(2, 0.15, "caminho fraco"));
    let new = CognitiveSnapshot::new("qwen2-14b");
    let merged =
        PersistentMemory::merge_snapshots(old, new, &vec![], &bits(&[0.12]));
    assert!(merged.pheromone_trails.is_empty());
}

#[test]
fn merging_keeps_topics_and_presets_of_both() {
    let preset = |name: &str, hits: u64| SteeringPreset {
        name: name.to_string(),
        task_signature: vec![],
        vectors: vec![],
        hit_count: hits,
        success_rate: 0,
        origin_model: String::new(),
    };
    let mut old = CognitiveSnapshot::new("a");
    old.steering_presets = vec![preset("p", 1), preset("q", 2)];
    old.topic_map.update_topic("t1", vec![1], 10);
    old.topic_map.update_topic("t2", vec![1], 10);
    old.topic_map.update_topic("t2", vec![2], 20);
    let mut new = CognitiveSnapshot::new("b");
    new.steering_presets = vec![preset("p", 9)];
    new.topic_map.update_topic("t1", vec![3], 30);
    let m = PersistentMemory::merge_snapshots(old, new, &vec![], &vec![]);
    let names: Vec<(&str, u64)> =
        m.steering_presets.iter().map(|p| (p.name.as_str(), p.hit_count)).collect();
    assert_eq!(names, vec![("p", 9), ("q", 2)]);
    assert_eq!(m.topic_map.topics.get("t1"), Some(&vec![3]));
    assert_eq!(m.topic_map.topics.get("t2"), Some(&vec![2]));
    assert_eq!(m.topic_map.coverage.get("t1"), Some(&30));
    assert_eq!(m.topic_map.coverage.get("t2"), Some(&20));
    assert_eq!(m.topic_map.chunk_count.get("t1"), Some(&1));
    assert_eq!(m.topic_map.chunk_count.get("t2"), Some(&2));
}

#[test]
fn test_knowledge_report_format() {
    let mut snapshot = CognitiveSnapshot::new("llama3-8b");
    snapshot.session_count = 5;
    snapshot.chunks_indexed = 100;
    snapshot.steering_presets.push(SteeringPreset {
        name: "security_audit".to_string(),
        task_signature: vec![],
        vectors: vec![],
        hit_count: 20,
        success_rate: 0.85f32.to_bits(),
        origin_model: "llama3-8b".to_string(),
    });
    let mem = PersistentMemory::new("/tmp/store");
    let report = mem.knowledge_report(&snapshot, &vec!["85".to_string()]);
    assert!(report.contains("Sessões: 5"));
    assert!(report.contains("Chunks RAG: 100"));
    assert!(report.contains("security_audit"));
    assert!(report.contains("llama3-8b"));
    assert!(report.contains("Top: 'security_audit'(85%)"));
    let empty = CognitiveSnapshot::new("m");
    assert!(mem.knowledge_report(&empty, &vec![]).contains("Top: (nenhum ainda)"));
}

#[test]
fn test_topic_map_coverage_grows() {
    let mut map = TopicMap::new();
    for i in 0..50 {
        let count = map.chunk_count.get("segurança").copied().unwrap_or(0) + 1;
        let cov = ((count as f32) / 100.0).sqrt().min(1.0);
        map.update_topic("segurança", bits(&[0.5, 0.5, i as f32 * 0.01]), cov.to_bits());
    }
    let cov = f32::from_bits(*map.coverage.get("segurança").unwrap());
    assert!(cov > 0.5);
    assert!(cov <= 1.0);
    assert_eq!(map.chunk_count.get("segurança"), Some(&50));
    map.update_topic("redes", vec![], 0.4f32.to_bits());
    map.update_topic("provas", vec![], 0.1f32.to_bits());
    let weak: Vec<String> = map.uncovered_topics().into_iter().map(|e| e.0).collect();
    assert_eq!(weak, vec!["provas".to_string(), "redes".to_string()]);
}

#[test]
fn a_memory_needs_a_directory() {
    let mem = PersistentMemory::new("d");
    assert!(mem.is_accessible(true, true));
    assert!(!mem.is_accessible(true, false));
    assert!(!mem.is_accessible(false, false));
}

// ─── Chunks ──────────────────────────────────────────────────────────────────

fn features(text: &str) -> Vec<f32> {
    let mut v = vec![0.0f32; 64];
    for (i, b) in text.bytes().take(64).enumerate() {
        v[i] += b as f32 / 255.0;
    }
    let norm: f32 = v.iter().map(|x| x * x).sum::<f32>().sqrt();
    if norm > 1e-10 {
        for x in v.iter_mut() {
            *x /= norm;
        }
    }
    v
}

fn distance(a: &[f32], b: &[f32]) -> f32 {
    let dot: f32 = a.iter().zip(b).map(|(x, y)| x * y).sum();
    1.0 - dot
}

fn chunk(chunker: &SemanticChunker, doc: &str, id: &str) -> Vec<EnrichedChunk> {
    let segments = chunker.split_into_segments(doc);
    if segments.is_empty() {
        return Vec::new();
    }
    let f: Vec<Vec<f32>> = segments.iter().map(|s| features(s)).collect();
    let d: Vec<u32> = f.windows(2).map(|w| distance(&w[0], &w[1]).to_bits()).collect();
    let boundaries = chunker.detect_boundaries(&d);
    let groups = chunker.group_by_boundaries(&segments, &boundaries);
    let features: Vec<Vec<u32>> = groups.iter().map(|g| bits(&features(g))).collect();
    chunker.chunk_document(id, &groups, &features)
}

#[test]
fn test_chunk_simple_document() {
    let chunker = SemanticChunker::new(500);
    let doc = "# MÃ³dulo de AutenticaÃ§Ã£o\n\
               Gerencia tokens JWT e validaÃ§Ã£o de usuÃ¡rios.\n\n\
               pub fn validate_token(token: &str) -> bool {\n\
               // Verifica assinatura e expiraÃ§Ã£o\n\
               true\n\
               }\n\n\
               pub fn create_token(user_id: u64) -> String {\n\
               // Cria novo JWT\n\
               String::new()\n\
               }";
    let chunks = chunk(&chunker, doc, "auth.rs");
    assert!(!chunks.is_empty());
    assert!(chunks.iter().all(|c| !c.text.is_empty()));
    assert!(chunks.iter().all(|c| c.parent_doc == "auth.rs"));
    assert!(chunks[0].section_header.is_some());
}

#[test]
fn test_chunks_have_embeddings() {
    let chunker = SemanticChunker::new(500);
    let doc = "Esta Ã© uma funÃ§Ã£o de autenticaÃ§Ã£o importante.\n\
               Ela valida tokens JWT de forma segura.\n\n\
               Outra seÃ§Ã£o completamente diferente sobre banco de dados.";
    for c in &chunk(&chunker, doc, "test.rs") {
        assert!(!c.embedding.is_empty());
        assert!(c.sae_features.len() <= 32);
    }
}

#[test]
fn test_chunks_have_unique_ids() {
    let chunker = SemanticChunker::new(500);
    let doc = "SeÃ§Ã£o 1:\nConteÃºdo da primeira seÃ§Ã£o com texto suficiente.\n\n\
               SeÃ§Ã£o 2:\nConteÃºdo da segunda seÃ§Ã£o completamente diferente.\n\n\
               SeÃ§Ã£o 3:\nConteÃºdo da terceira seÃ§Ã£o tambÃ©m diferente e Ãºnico.";
    let chunks = chunk(&chunker, doc, "multi_section.md");
    if chunks.len() > 1 {
        let ids: Vec<u64> = chunks.iter().map(|c| c.id).collect();
        let unique_ids: HashSet<u64> = ids.iter().copied().collect();
        assert_eq!(ids.len(), unique_ids.len());
    }
}

#[test]
fn test_chunk_location_context() {
    let chunker = SemanticChunker::new(500);
    let doc = "Primeira parte do documento com conteÃºdo relevante aqui.\n\n\
               Segunda parte com conteÃºdo muito diferente da primeira parte.";
    for c in &chunk(&chunker, doc, "doc.md") {
        assert!(c.location_context.contains("doc.md"));
    }
}

#[test]
fn test_neighbor_linking() {
    let chunker = SemanticChunker::new(500);
    let doc = "FunÃ§Ã£o authenticate():\n\
               Verifica credenciais do usuÃ¡rio de forma segura e confiÃ¡vel.\n\n\
               pub fn get_user_from_db(id: u64) -> Option<User> {\n\
               // consulta banco de dados\n\
               None\n\
               }\n\n\
               pub fn hash_password(password: &str) -> String {\n\
               // bcrypt hash seguro\n\
               String::new()\n\
               }";
    let chunks = chunk(&chunker, doc, "auth_module.rs");
    if chunks.len() >= 2 {
        assert!(!chunks[1].neighbor_chunk_ids.is_empty());
        assert!(chunks[1].neighbor_chunk_ids.contains(&chunks[0].id));
    }
}

#[test]
fn chunks_know_the_ones_beside_them() {
    let chunker = SemanticChunker::new(500);
    let groups: Vec<String> = ["a", "b", "c"].iter().map(|s| s.repeat(60)).collect();
    let features = vec![vec![]; 3];
    let chunks = chunker.chunk_document("auth_module.rs", &groups, &features);
    let id = |pos: usize| {
        let mut h = DefaultHasher::new();
        "auth_module.rs".hash(&mut h);
        pos.hash(&mut h);
        60usize.hash(&mut h);
        h.finish()
    };
    assert_eq!(chunks[0].id, id(0));
    assert_eq!(chunker.hash_chunk("auth_module.rs", 2, &groups[2]), id(2));
    assert_eq!(chunks.len(), 3);
    assert!(!chunks[1].neighbor_chunk_ids.is_empty());
    assert!(chunks[1].neighbor_chunk_ids.contains(&chunks[0].id));
    assert_eq!(chunks[0].neighbor_chunk_ids, vec![id(1)]);
    assert_eq!(chunks[1].neighbor_chunk_ids, vec![id(0), id(2)]);
    assert_eq!(chunks[2].neighbor_chunk_ids, vec![id(1)]);
    assert_eq!(chunks[2].location_context, "Documento: 'auth_module.rs' | Chunk 3 de 3");
}

#[test]
fn test_empty_document_returns_empty() {
    let chunker = SemanticChunker::new(500);
    assert!(chunk(&chunker, "", "empty.txt").is_empty());
}

#[test]
fn test_parent_context_extraction() {
    let chunker = SemanticChunker::new(500);
    let full_doc = "IntroduÃ§Ã£o ao sistema.\n\nFunÃ§Ã£o principal aqui.\n\nConclcusÃ£o.";
    let chunk = EnrichedChunk {
        text: "FunÃ§Ã£o principal aqui.".to_string(),
        id: 1,
        embedding: vec![],
        sae_features: vec![],
        semantic_tags: vec![],
        parent_doc: "doc.md".to_string(),
        section_header: None,
        location_context: String::new(),
        neighbor_chunk_ids: vec![],
        topology_cluster: None,
        position: 1,
    };
    let ctx = chunker.get_parent_context(&chunk, full_doc).unwrap();
    assert!(!ctx.is_empty());
    assert!(ctx.contains("FunÃ§Ã£o principal"));
    assert_eq!(ctx, full_doc);
    let far = format!("{}{}{}", "x".repeat(500), chunk.text, "y".repeat(500));
    let near = chunker.get_parent_context(&chunk, &far).unwrap();
    assert_eq!(near, format!("{}{}{}", "x".repeat(200), chunk.text, "y".repeat(200)));
    let split = format!("{}é{}{}", "x", "a".repeat(199), chunk.text);
    assert!(chunker.get_parent_context(&chunk, &split).is_none());
}

#[test]
fn lines_and_segments_are_cut_where_they_end() {
    assert_eq!(split_lines("a\r\nb\n\nc\r"), vec!["a", "b", "", "c\r"]);
    assert!(split_lines("").is_empty());
    let mut chunker = SemanticChunker::new(20);
    chunker.min_chunk_chars = 3;
    let s = chunker.split_into_segments("# one\ntext\n\nfn two() {}\nab\n\nxyz");
    assert_eq!(s, vec!["# one\ntext", "fn two() {}\nab", "xyz"]);
    let g = chunker.group_by_boundaries(&s, &vec![true, false, true]);
    assert_eq!(g, vec!["# one\ntext\nfn two() {}\nab", "xyz"]);
    assert_eq!(
        chunker.detect_boundaries(&bits(&[0.3, 0.4])),
        vec![true, false, true]
    );
}

#[test]
fn tags_name_features_without_repetition_in_a_row() {
    let mut chunker = SemanticChunker::new(500);
    assert_eq!(chunker.feature_tag_map.len(), 15);
    chunker.feature_tag_map =
        vec![(0, "a".to_string()), (1, "a".to_string()), (3, "b".to_string())];
    let f = bits(&[1.0, 1.0, 1.0, 1.0, 0.0]);
    let active = chunker.extract_active_features(&f);
    assert_eq!(active.len(), 4);
    assert_eq!(chunker.features_to_tags(&active), vec!["a", "b"]);
    assert_eq!(chunker.features_to_embedding(&bits(&[0.0; 70])), vec![0u32; 64]);
    assert_eq!(chunker.features_to_embedding(&f), f);
    assert_eq!(chunker.detect_section_header("  def f():\n"), Some("def f():".to_string()));
    assert_eq!(chunker.detect_section_header("text"), None);
}

// ─── Preferences ─────────────────────────────────────────────────────────────

#[test]
fn corrections_signal_when_there_are_enough() {
    let mut c = PreferenceCollector::new(PreferenceConfig {
        store_path: "p".to_string(),
        consolidation_threshold: 2,
        max_pairs: 10,
        sae_dim: 0,
    });
    assert!(c.record_auto("p", "r", "c", vec![], vec![1], vec![]).unwrap().is_none());
    assert!(!c.is_consolidation_ready());
    let signal = c.record_correction("p", "r", "c", vec![], vec![1, 2]).unwrap().unwrap();
    assert_eq!(signal.pairs_ready, 2);
    assert!(c.is_consolidation_ready());
    assert_eq!(c.pending_count(), 2);
    assert_eq!(c.stats.signals_emitted, 1);
    assert_eq!(c.stats.auto_captured, 1);
    let pairs = c.drain_for_training();
    assert_eq!(c.pending_count(), 0);
    assert_eq!(pairs[0].source, PreferencePairSource::AutoCapture);
    assert_eq!(pairs[0].created_at, 0);
    assert_eq!(pairs[1].chosen_pathway, Some(vec![1, 2]));
    assert!(pairs[1].created_at > 1_700_000_000_000);
    assert_eq!(PreferenceConfig::default().consolidation_threshold, 10);
}
