use std::collections::hash_map::DefaultHasher;
use std::hash::{Hash, Hasher};

use nodestor_inference::errors::NodeStorError;
use nodestor_inference::keyed_map::KeyedMap;
use nodestor_inference::lora_core::{
    init_word, KDynamicScheduler, LoraBank, LoraLayer, MergeAction,
};
use nodestor_inference::moe_kernel::{
    expert_slice, moe_ffn_step, route, ExpertLoadTracker, ExpertSource, MoeConfig, RouterKind,
};
use nodestor_inference::nsz_reader::{NszEntry, NszLayout, NszReader, NszStep};
use nodestor_inference::nsz::{check_magic, take_entry, take_tile, weights_in_tile, TileHeader};
use nodestor_inference::quant_invariant::{EarlyAbortToken, ExpertProvisioner};
use nodestor_inference::sparse_activation::{sparse_columns, SparseStats, DEFAULT_THRESHOLD};
use nodestor_inference::ssd_stream::{
    expert_byte_range, ExpertCache, ExpertDiskEntry, ExpertFrequency, ExpertId, ExpertPrefetcher,
    ExpertWeightCache, ExpertWeightTriple, QuantType, SsdStreamConfig, SsdWeightStream,
    WeightBlock,
};
use nodestor_inference::ssd_stripe::{decompress_gdeflate, read_block, SsdStripe, StripeConfig};
use nodestor_inference::weight_store::{
    build_weight_bank, tensor_to_f32, TensorDtype, TensorInfo, TensorValues, WeightBank,
    WeightStore,
};

fn bits(v: &[f32]) -> Vec<u32> {
    v.iter().map(|x| x.to_bits()).collect()
}

fn floats(v: &[u32]) -> Vec<f32> {
    v.iter().map(|x| f32::from_bits(*x)).collect()
}

// ─── Adapters ────────────────────────────────────────────────────────────────

fn make_layer(in_f: usize, out_f: usize, r: usize, alpha: f32) -> LoraLayer {
    let std = 1.0 / (r as f32).sqrt();
    let a: Vec<u32> = (0..in_f * r)
        .map(|i| {
            let x = init_word(i as u64);
            ((x as f32 / u32::MAX as f32 - 0.5) * 2.0 * std).to_bits()
        })
        .collect();
    LoraLayer::new(in_f, out_f, r, alpha.to_bits(), a)
}

#[test]
fn a_new_layer_changes_nothing() {
    let layer = make_layer(8, 4, 2, 2.0);
    assert_eq!(layer.a.len(), 16);
    assert_eq!(layer.b, vec![0u32; 8]);
}

#[test]
fn test_lora_dimension_mismatch_returns_error() {
    let bank = LoraBank::new(8192, 8, 16.0f32.to_bits());
    let result = bank.check_compatible(4096);
    assert!(result.is_err());
    let msg = result.err().map(|e| e.message()).unwrap_or_default();
    assert!(msg.contains("8192") && msg.contains("4096"));
}

#[test]
fn test_lora_compatible_bank_succeeds() {
    let bank = LoraBank::new(4096, 8, 16.0f32.to_bits());
    assert!(bank.check_compatible(4096).is_ok());
}

#[test]
fn test_lora_save_load_round_trip() {
    let mut bank = LoraBank::new(64, 4, 8.0f32.to_bits());
    let mut layer = make_layer(64, 32, 4, 8.0);
    layer.a[0] = 0.12345f32.to_bits();
    layer.b[7] = (-0.98765f32).to_bits();
    bank.insert("blk.0.attn_q.weight".to_string(), layer);

    let loaded = LoraBank::load(&bank.save()).ok().expect("reads back");

    assert_eq!(loaded.hidden_dim, 64);
    assert_eq!(loaded.rank, 4);
    let lyr = loaded.get("blk.0.attn_q.weight").expect("layer");
    assert_eq!(lyr.in_features, 64);
    assert_eq!(lyr.out_features, 32);
    assert!((f32::from_bits(lyr.a[0]) - 0.12345).abs() < 1e-7);
    assert!((f32::from_bits(lyr.b[7]) - (-0.98765)).abs() < 1e-7);
}

#[test]
fn test_lora_load_invalid_magic_returns_error() {
    let result = LoraBank::load(b"\x00\x00\x00\x00garbage data");
    assert!(result.is_err());
    let msg = result.err().map(|e| e.message()).unwrap_or_default();
    assert!(msg.contains("magic") || msg.contains("Magic") || msg.contains("lora"));
}

#[test]
fn a_bank_cut_short_or_with_a_bad_name_is_refused() {
    let mut bank = LoraBank::new(4, 1, 1.0f32.to_bits());
    bank.insert("ab".to_string(), make_layer(4, 4, 1, 1.0));
    let whole = bank.save();
    for n in 0..whole.len() {
        assert!(LoraBank::load(&whole[..n]).is_err());
    }
    let mut bad = whole.clone();
    let at = whole.windows(2).position(|w| w == b"ab").unwrap();
    bad[at] = 0xff;
    assert!(LoraBank::load(&bad).is_err());
    assert!(LoraBank::load(&whole).is_ok());
}

#[test]
fn merging_takes_over_new_layers_and_combines_equal_sizes() {
    let mut ours = LoraBank::new(4, 1, 1.0f32.to_bits());
    ours.insert("x".to_string(), make_layer(4, 4, 1, 1.0));
    let mut theirs = LoraBank::new(4, 1, 1.0f32.to_bits());
    theirs.insert("x".to_string(), make_layer(4, 8, 1, 1.0));
    theirs.insert("y".to_string(), make_layer(4, 4, 1, 1.0));
    assert_eq!(
        ours.merge_actions(&theirs),
        vec![MergeAction::Combine { a: true, b: false }, MergeAction::TakeOver]
    );
    ours.get_mut("x").unwrap().rank = 9;
    assert_eq!(ours.get("x").unwrap().rank, 9);
}

#[test]
fn test_speculation_rollback_under_heavy_steering() {
    let mut sched = KDynamicScheduler::new(8, 1, 16);
    let ema = |s: &KDynamicScheduler, accepted: usize, total: usize| -> u32 {
        let rate = accepted as f32 / total as f32;
        (0.25 * rate + (1.0 - 0.25) * f32::from_bits(s.acceptance_ema)).to_bits()
    };
    for _ in 0..20 {
        let k_before = sched.k();
        let e = ema(&sched, 0, k_before);
        let k_after = sched.step(k_before, e);
        assert!(k_after >= 1);
    }
    assert_eq!(sched.k(), 1);
    for _ in 0..30 {
        let k = sched.k();
        let e = ema(&sched, k, k);
        sched.step(k, e);
    }
    assert!(sched.k() > 1);
}

// ─── Experts ─────────────────────────────────────────────────────────────────

fn config(n_experts: usize, top_k: usize, kind: RouterKind) -> MoeConfig {
    MoeConfig {
        hidden: 4,
        intermediate: 8,
        n_experts,
        top_k,
        n_shared_experts: 0,
        shared_intermediate: 0,
        router_kind: kind,
        norm_top_k_weights: true,
        ssd_store: false,
    }
}

fn softmax(v: &[f32]) -> Vec<f32> {
    let max = v.iter().cloned().fold(f32::NEG_INFINITY, f32::max);
    let exps: Vec<f32> = v.iter().map(|&x| (x - max).exp()).collect();
    let sum: f32 = exps.iter().sum();
    exps.iter().map(|&e| e / sum).collect()
}

/// The experts chosen, their weights, and the entropy of the router.
fn routed(
    logits: &[f32],
    bias: Option<&[f32]>,
    cfg: &MoeConfig,
) -> (Vec<usize>, Vec<f32>, f32) {
    let scores = match cfg.router_kind {
        RouterKind::Softmax => softmax(logits),
        RouterKind::Sigmoid => logits.iter().map(|x| 1.0 / (1.0 + (-x).exp())).collect(),
    };
    let entropy = scores.iter().filter(|&&s| s > 1e-12).map(|&s| -s * s.ln()).sum();
    let selection: Vec<f32> = match bias {
        Some(b) => scores.iter().zip(b).map(|(s, b)| s + b).collect(),
        None => scores.clone(),
    };
    let picks = route(&bits(&selection), cfg);
    let total: f32 = picks.iter().map(|&i| scores[i]).sum();
    let weights = picks.iter().map(|&i| scores[i] / total).collect();
    (picks, weights, entropy)
}

#[test]
fn router_softmax_top2_correct() {
    let cfg = config(4, 2, RouterKind::Softmax);
    let (picks, weights, entropy) = routed(&[1.0, 0.1, 3.0, 0.5], None, &cfg);
    assert_eq!(picks[0], 2);
    assert_eq!(picks[1], 0);
    let sum: f32 = weights.iter().sum();
    assert!((sum - 1.0).abs() < 1e-5);
    assert!(entropy > 0.0);
}

#[test]
fn router_sigmoid_top2() {
    let cfg = config(4, 2, RouterKind::Sigmoid);
    let (picks, weights, _) = routed(&[0.0, 2.0, -1.0, 1.5], None, &cfg);
    assert_eq!(picks[0], 1);
    assert_eq!(picks[1], 3);
    let sum: f32 = weights.iter().sum();
    assert!((sum - 1.0).abs() < 1e-5);
}

#[test]
fn router_bias_shifts_selection() {
    let cfg = config(4, 1, RouterKind::Softmax);
    let logits = [1.0f32, 2.0, 0.5, 0.1];
    let (plain, _, _) = routed(&logits, None, &cfg);
    assert_eq!(plain[0], 1);
    let bias = [5.0f32, 0.0, 0.0, 0.0];
    let (biased, weights, _) = routed(&logits, Some(&bias), &cfg);
    assert_eq!(biased[0], 0);
    assert!((weights[0] - 1.0).abs() < 1e-5);
}

#[test]
fn top_k_all_experts_equal_logits() {
    let cfg = config(8, 4, RouterKind::Softmax);
    let (picks, weights, entropy) = routed(&[1.0; 8], None, &cfg);
    assert_eq!(picks.len(), 4);
    for &w in &weights {
        assert!((w - 0.25).abs() < 1e-5);
    }
    assert!(entropy > 2.0);
}

#[test]
fn top_k_weight_sum_invariant() {
    let cfg = config(16, 3, RouterKind::Softmax);
    for seed in 0u64..20 {
        let logits: Vec<f32> = (0..16u64)
            .map(|i| {
                let mut h = DefaultHasher::new();
                (seed * 100 + i).hash(&mut h);
                ((h.finish() % 1000) as f32 / 100.0) - 5.0
            })
            .collect();
        let (_, weights, _) = routed(&logits, None, &cfg);
        let sum: f32 = weights.iter().sum();
        assert!((sum - 1.0).abs() < 1e-4);
    }
}

#[test]
fn expert_slice_indexing() {
    let stacked: Vec<u32> = (0..18).map(|i| (i as f32).to_bits()).collect();
    let e0 = expert_slice(&stacked, 0, 2, 3);
    let e1 = expert_slice(&stacked, 1, 2, 3);
    let e2 = expert_slice(&stacked, 2, 2, 3);
    assert_eq!(floats(e0), vec![0.0, 1.0, 2.0, 3.0, 4.0, 5.0]);
    assert_eq!(floats(e1), vec![6.0, 7.0, 8.0, 9.0, 10.0, 11.0]);
    assert_eq!(floats(e2), vec![12.0, 13.0, 14.0, 15.0, 16.0, 17.0]);
    assert!(expert_slice(&stacked, 3, 2, 3).is_empty());
}

#[test]
fn expert_load_tracker_top_n() {
    let mut tracker = ExpertLoadTracker::new(8);
    for _ in 0..10 {
        tracker.record(&vec![3]);
    }
    for _ in 0..5 {
        tracker.record(&vec![7]);
    }
    for e in 0..8usize {
        if e != 3 && e != 7 {
            tracker.record(&vec![e]);
        }
    }
    let top2 = tracker.top_n(2);
    assert_eq!(top2[0], 3);
    assert_eq!(top2[1], 7);
}

#[test]
fn mixtures_are_recognised_by_their_router() {
    let mut wb = WeightBank::new();
    assert!(MoeConfig::from_weight_bank(&wb, 4, 8).is_none());
    wb.insert("blk.0.ffn_gate_inp.weight".to_string(), vec![0u8; 4 * 4 * 16]);
    wb.insert("blk.0.ffn_gate_exps.weight".to_string(), vec![0u8; 4]);
    let cfg = MoeConfig::from_weight_bank(&wb, 4, 8).unwrap();
    assert_eq!(cfg.n_experts, 16);
    assert_eq!(cfg.top_k, 4);
    assert_eq!(cfg.router_kind, RouterKind::Softmax);
    assert!(moe_ffn_step(&cfg, &wb, 3).is_none());
    let on_demand = cfg.with_ssd_store();
    let plan = moe_ffn_step(&on_demand, &wb, 0).unwrap();
    assert_eq!(plan.router, "blk.0.ffn_gate_inp.weight");
    assert!(plan.bias.is_none());
    assert!(matches!(plan.source, ExpertSource::OnDemand));
}

#[test]
fn expert_provisioner_select_top_k() {
    let logits = bits(&[0.1, 0.9, 0.3, 0.7, 0.5]);
    let top2 = ExpertProvisioner::select_top_k(&logits, 2);
    assert_eq!(top2.len(), 2);
    assert_eq!(top2[0], 1);
    assert_eq!(top2[1], 3);
}

#[test]
fn expert_provisioner_provision_correct_experts() {
    let mut prov = ExpertProvisioner::new();
    prov.register_expert(0, bits(&[1.0, 2.0]));
    prov.register_expert(1, bits(&[3.0, 4.0]));
    prov.register_expert(2, bits(&[5.0, 6.0]));
    let result = prov.provision(&vec![1, 0]);
    assert_eq!(result.len(), 2);
    let ids: Vec<u32> = result.iter().map(|(id, _)| *id).collect();
    assert!(ids.contains(&0));
    assert!(ids.contains(&1));
    assert!(!ids.contains(&2));
    assert_eq!(*result[0].1, bits(&[3.0, 4.0]));
}

#[test]
fn early_abort_token_cancel_sets_flag() {
    let mut token = EarlyAbortToken::new(42);
    assert!(!token.is_cancelled());
    token.cancel();
    assert!(token.is_cancelled());
    assert_eq!(token.expert_id(), 42);
}

#[test]
fn loads_that_are_not_selected_are_cancelled() {
    let mut prov = ExpertProvisioner::default();
    prov.inflight = vec![EarlyAbortToken::new(1), EarlyAbortToken::new(2), EarlyAbortToken::new(3)];
    let aborted = prov.abort_non_selected(&vec![2]);
    assert_eq!(prov.inflight, vec![EarlyAbortToken::new(2)]);
    assert_eq!(aborted.len(), 2);
    assert!(aborted.iter().all(|t| t.is_cancelled()));
}

fn activations(gate: &[f32], up: &[f32]) -> Vec<f32> {
    gate.iter().zip(up).map(|(g, u)| g / (1.0 + (-g).exp()) * u).collect()
}

fn dense_down(gate: &[f32], up: &[f32], wdown: &[f32], h: usize, n: usize) -> Vec<f32> {
    let mid = activations(gate, up);
    (0..h).map(|i| (0..n).map(|j| mid[j] * wdown[i * n + j]).sum()).collect()
}

fn sparse_down(
    gate: &[f32],
    up: &[f32],
    wdown: &[f32],
    h: usize,
    n: usize,
    threshold: u32,
) -> (Vec<f32>, SparseStats) {
    let (columns, stats) = sparse_columns(&bits(&activations(gate, up)), threshold);
    let mut out = vec![0.0f32; h];
    for (j, v) in columns {
        for i in 0..h {
            out[i] += f32::from_bits(v) * wdown[i * n + j];
        }
    }
    (out, stats)
}

#[test]
fn sparse_threshold_zero_equals_dense() {
    let h = 8;
    let n = 16;
    let gate: Vec<f32> = (0..n).map(|i| i as f32 * 0.3 - 2.0).collect();
    let up: Vec<f32> = (0..n).map(|i| i as f32 * 0.1 + 0.5).collect();
    let wdown: Vec<f32> = (0..h * n).map(|i| i as f32 * 0.01).collect();
    let dense = dense_down(&gate, &up, &wdown, h, n);
    let (sparse, stats) = sparse_down(&gate, &up, &wdown, h, n, 0.0f32.to_bits());
    for i in 0..h {
        assert!((dense[i] - sparse[i]).abs() < 1e-5);
    }
    assert_eq!(stats.skipped, 0);
}

#[test]
fn sparse_production_threshold_low_error() {
    let h = 64;
    let n = 256;
    let gate: Vec<f32> = (0..n)
        .map(|i| {
            let t = i as f32 / n as f32;
            (t * 6.0 - 3.0) * ((i * 7 + 1) as f32).sin()
        })
        .collect();
    let up: Vec<f32> = (0..n).map(|i| i as f32 * 0.02 + 0.1).collect();
    let wdown: Vec<f32> = (0..h * n).map(|i| (i as f32).sin() * 0.1).collect();
    let dense = dense_down(&gate, &up, &wdown, h, n);
    let (sparse, stats) = sparse_down(&gate, &up, &wdown, h, n, DEFAULT_THRESHOLD);
    let max_err =
        dense.iter().zip(sparse.iter()).map(|(d, s)| (d - s).abs()).fold(0.0f32, f32::max);
    assert!(stats.skipped > 0);
    assert!(max_err < 0.5);
}

#[test]
fn sparse_stats_all_zero_gate_skips_everything() {
    let h = 4;
    let n = 8;
    let gate = vec![0.0f32; n];
    let up = vec![1.0f32; n];
    let wdown = vec![1.0f32; h * n];
    let (out, stats) = sparse_down(&gate, &up, &wdown, h, n, 1e-9f32.to_bits());
    assert_eq!(stats.skipped, n as u64);
    assert!(out.iter().all(|&v| v == 0.0));
}

#[test]
fn sparse_columns_keep_what_is_above_the_threshold() {
    assert_eq!(f32::from_bits(DEFAULT_THRESHOLD), 0.02);
    let values = bits(&[0.01, -0.5, 0.02, 0.03]);
    let (columns, stats) = sparse_columns(&values, DEFAULT_THRESHOLD);
    assert_eq!(columns, vec![(1, values[1]), (3, values[3])]);
    assert_eq!(stats.total, 4);
    assert_eq!(stats.skipped, 2);
}

// ─── Streaming experts ───────────────────────────────────────────────────────

#[test]
fn expert_frequency_top_k() {
    let mut freq = ExpertFrequency::new();
    let ids: Vec<ExpertId> = (0..4).map(|i| ExpertId { layer: 0, expert: i }).collect();
    for _ in 0..10 {
        freq.record(&ids[..2]);
    }
    freq.record(&ids[..1]);
    freq.record(&ids[2..3]);
    let top = freq.top_k(2);
    assert_eq!(top[0].0.expert, 0);
    assert_eq!(top[1].0.expert, 1);
    assert!(top[0].1 > top[1].1);
    assert_eq!(freq.count(ids[0]), 11);
}

fn block(id: ExpertId, data: Vec<u8>) -> WeightBlock {
    WeightBlock { id, data, quant: QuantType::Q4_0, rows: 4096, cols: 4096 }
}

#[test]
fn cache_vram_ram_split() {
    let mut cache = ExpertCache::new(1_048_576, 4 * 1_048_576);
    let id0 = ExpertId { layer: 0, expert: 0 };
    for _ in 0..100 {
        cache.frequency.record(&[id0]);
    }
    cache.insert(WeightBlock {
        id: id0,
        data: vec![0u8; 512 * 1024],
        quant: QuantType::Q4_0,
        rows: 4096,
        cols: 4096,
    });
    assert!(cache.vram.contains_key(&id0));
}

#[test]
fn what_was_inserted_is_found() {
    let mut cache = ExpertCache::new(64, 256);
    let id = ExpertId { layer: 1, expert: 2 };
    assert!(cache.get(id).is_none());
    cache.insert(block(id, vec![5u8; 32]));
    let (_, b) = cache.get(id).unwrap();
    assert_eq!(b.data, vec![5u8; 32]);
}

#[test]
fn video_memory_is_never_overfull() {
    let mut cache = ExpertCache::new(10, 100);
    let id = |e: u32| ExpertId { layer: 0, expert: e };
    for _ in 0..2 {
        cache.frequency.record(&[id(0), id(1)]);
    }
    for _ in 0..5 {
        cache.frequency.record(&[id(2)]);
    }
    cache.insert(block(id(0), vec![0u8; 5]));
    cache.insert(block(id(1), vec![0u8; 5]));
    assert_eq!(cache.vram_used, 10);
    cache.insert(block(id(2), vec![0u8; 10]));
    assert_eq!(cache.vram_used, 10);
    assert!(cache.vram.contains_key(&id(2)));
    assert!(cache.ram.contains_key(&id(0)) && cache.ram.contains_key(&id(1)));
}

#[test]
fn blocks_make_way_for_newer_ones() {
    let mut cache = ExpertCache::new(0, 100);
    let id = |e: u32| ExpertId { layer: 0, expert: e };
    for e in 0..3 {
        cache.insert(block(id(e), vec![0u8; 40]));
    }
    assert!(!cache.ram.contains_key(&id(0)));
    assert!(cache.ram.contains_key(&id(1)) && cache.ram.contains_key(&id(2)));
    assert_eq!(cache.ram_used, 80);
    cache.insert(block(id(3), vec![0u8; 200]));
    assert_eq!(cache.ram_used, 200);
    assert_eq!(cache.ram.len(), 1);
}

#[test]
fn hot_experts_move_up() {
    let mut stream = SsdWeightStream::new(
        SsdStreamConfig { vram_budget: 64, ram_budget: 256, ..SsdStreamConfig::default() },
        KeyedMap::new(),
    );
    let (a, b) = (ExpertId { layer: 0, expert: 0 }, ExpertId { layer: 0, expert: 1 });
    stream.keep_prefetched(block(a, vec![1u8; 40]));
    stream.keep_prefetched(block(b, vec![2u8; 40]));
    stream.finish_fetch(&[b]);
    stream.finish_fetch(&[b]);
    stream.finish_fetch(&[a]);
    assert_eq!(stream.tokens_served, 3);
    stream.promote_hot_experts(2);
    assert!(stream.cache.vram.contains_key(&b));
    assert!(!stream.cache.vram.contains_key(&a));
    assert_eq!(stream.cache.vram_used, 40);
}

#[test]
fn elements_take_their_bytes() {
    assert_eq!(QuantType::Q4_0.bytes_per_eight(), 4);
    assert_eq!(QuantType::Q4_K.bytes_per_eight(), 4);
    assert_eq!(QuantType::Q5_0.bytes_per_eight(), 5);
    assert_eq!(QuantType::Q8_0.bytes_per_eight(), 8);
    assert_eq!(QuantType::F16.bytes_per_eight(), 16);
    assert_eq!(QuantType::BF16.bytes_per_eight(), 16);
}

#[test]
fn expert_prefetcher_top_k() {
    let pf = ExpertPrefetcher::new(2);
    let logits = bits(&[0.1, 0.9, 0.3, 0.7, 0.5, 0.2, 0.8, 0.4]);
    let ids = pf.predict_next(0, &logits, 2);
    assert_eq!(ids.len(), 4);
    assert_eq!(ids[0].expert, 1);
}

fn entry(offset: u64, len: u64, raw: u64, is_compressed: bool) -> ExpertDiskEntry {
    ExpertDiskEntry {
        offset,
        compressed_bytes: len,
        raw_bytes: raw,
        quant: QuantType::Q8_0,
        rows: 8,
        cols: 8,
        is_compressed,
    }
}

fn shard(experts: &[(ExpertId, Vec<u8>)]) -> (Vec<u8>, KeyedMap<ExpertId, ExpertDiskEntry>) {
    let mut file = Vec::new();
    let mut index = KeyedMap::new();
    for (id, data) in experts {
        index.insert(*id, entry(file.len() as u64, data.len() as u64, data.len() as u64, false));
        file.extend_from_slice(data);
    }
    (file, index)
}

fn fetch(stripe: &mut SsdStripe, files: &[Vec<u8>], ids: &[ExpertId]) -> Vec<WeightBlock> {
    let (mut result, misses) = stripe.split(ids);
    for id in misses {
        let (at, e) = stripe.locate(id).ok().unwrap();
        let start = e.offset as usize;
        let buf = files[at][start..start + e.compressed_bytes as usize].to_vec();
        let b = read_block(id, e, buf).ok().unwrap();
        result.push(stripe.absorb(b));
    }
    stripe.finish_token();
    result
}

#[test]
fn single_shard_fetch() {
    let id0 = ExpertId { layer: 0, expert: 0 };
    let id1 = ExpertId { layer: 0, expert: 1 };
    let (file, index) = shard(&[(id0, vec![0xAA; 64]), (id1, vec![0xBB; 64])]);
    let mut stripe = SsdStripe::new(StripeConfig {
        shard_paths: vec!["shard0.bin".to_string()],
        shard_indices: vec![index],
        cache: ExpertCache::new(8 * 1024 * 1024, 64 * 1024 * 1024),
        parallel: false,
    })
    .ok()
    .unwrap();
    let blocks = fetch(&mut stripe, &[file], &[id0, id1]);
    assert_eq!(blocks.len(), 2);
    assert_eq!(blocks[0].data, vec![0xAA; 64]);
    assert_eq!(blocks[1].data, vec![0xBB; 64]);
    assert_eq!(stripe.ssd_reads, 2);
}

#[test]
fn two_shard_parallel() {
    let id0 = ExpertId { layer: 0, expert: 0 };
    let id1 = ExpertId { layer: 0, expert: 1 };
    let (f0, idx0) = shard(&[(id0, vec![11u8; 32])]);
    let (f1, idx1) = shard(&[(id1, vec![22u8; 32])]);
    let mut stripe = SsdStripe::new(StripeConfig {
        shard_paths: vec!["s0.bin".to_string(), "s1.bin".to_string()],
        shard_indices: vec![idx0, idx1],
        cache: ExpertCache::new(8 * 1024 * 1024, 64 * 1024 * 1024),
        parallel: true,
    })
    .ok()
    .unwrap();
    let blocks = fetch(&mut stripe, &[f0, f1], &[id0, id1]);
    assert_eq!(blocks.len(), 2);
    assert_eq!(stripe.n_shards(), 2);
}

#[test]
fn cache_hit_avoids_ssd() {
    let id0 = ExpertId { layer: 0, expert: 0 };
    let (file, index) = shard(&[(id0, vec![99u8; 64])]);
    let mut stripe = SsdStripe::new(StripeConfig {
        shard_paths: vec!["s.bin".to_string()],
        shard_indices: vec![index],
        cache: ExpertCache::new(8 * 1024 * 1024, 64 * 1024 * 1024),
        parallel: false,
    })
    .ok()
    .unwrap();
    let files = [file];
    fetch(&mut stripe, &files, &[id0]);
    assert_eq!(stripe.ssd_reads, 1);
    assert_eq!(stripe.cache_hits, 0);
    fetch(&mut stripe, &files, &[id0]);
    assert_eq!(stripe.ssd_reads, 1);
    assert_eq!(stripe.cache_hits, 1);
    let unknown = ExpertId { layer: 9, expert: 9 };
    assert!(stripe.locate(unknown).is_err());
}

#[test]
fn shard_assignment_distributes_evenly() {
    let n = 4;
    let mut counts = vec![0usize; n];
    let id_any = ExpertId { layer: 0, expert: 0 };
    let indices = (0..n).map(|_| shard(&[(id_any, vec![0u8; 1])]).1).collect();
    let stripe = SsdStripe::new(StripeConfig {
        shard_paths: vec!["d.bin".to_string(); n],
        shard_indices: indices,
        cache: ExpertCache::new(1024, 1024),
        parallel: false,
    })
    .ok()
    .unwrap();
    for layer in 0..8u32 {
        for expert in 0..32u32 {
            counts[stripe.shard_for(ExpertId { layer, expert })] += 1;
        }
    }
    for &c in counts.iter() {
        assert!(c > 0);
    }
}

#[test]
fn a_stripe_needs_an_index_for_every_shard() {
    let result = SsdStripe::new(StripeConfig {
        shard_paths: vec!["a".to_string(), "b".to_string()],
        shard_indices: vec![KeyedMap::new()],
        cache: ExpertCache::new(1024, 1024),
        parallel: false,
    });
    assert!(result.is_err());
}

#[test]
fn compressed_blocks_are_inflated() {
    let raw = vec![7u8; 500];
    let packed = miniz_oxide::deflate::compress_to_vec(&raw, 6);
    assert_ne!(packed, raw);
    assert_eq!(decompress_gdeflate(&packed, 500).ok().unwrap(), raw);
    assert!(decompress_gdeflate(&packed, 499).is_err());
    assert!(decompress_gdeflate(&[0xff, 0xff, 0xff], 10).is_err());

    let id = ExpertId { layer: 0, expert: 3 };
    let b = read_block(id, entry(0, packed.len() as u64, 500, true), packed.clone()).ok().unwrap();
    assert_eq!(b.data, raw);

    let stream = SsdWeightStream::new(
        SsdStreamConfig {
            gguf_path: "m.gguf".to_string(),
            vram_budget: 1024,
            ram_budget: 1024,
            prefetch_depth: 1,
            gdeflate: true,
            experts_per_layer: 8,
            active_experts: 2,
        },
        KeyedMap::new(),
    );
    assert_eq!(stream.gdeflate_decompress(&packed, 500).ok().unwrap(), raw);
    let e: NodeStorError = stream.gdeflate_decompress(&packed, 3).err().unwrap();
    assert_eq!(e.message(), "gdeflate: expected 3 bytes, got 500");
    assert!(stream.is_moe());
}

#[test]
fn decoded_experts_are_kept_by_last_use() {
    let mut cache = ExpertWeightCache::new(2);
    let triple = |v: u32| ExpertWeightTriple { gate: vec![v], up: vec![v], down: vec![v] };
    cache.insert(0, 0, triple(1));
    cache.insert(0, 1, triple(2));
    assert_eq!(cache.get_clone(0, 0).unwrap().gate, vec![1]);
    cache.insert(0, 2, triple(3));
    assert!(cache.get_clone(0, 1).is_none());
    assert!(cache.get_clone(0, 0).is_some());
    assert_eq!(cache.hits, 2);
    assert_eq!(cache.misses, 1);
}

#[test]
fn experts_stand_one_after_the_other_in_whole_blocks() {
    assert_eq!(expert_byte_range(1000, 1, 4, 10, 32, 34), Some((68, 136)));
    assert_eq!(expert_byte_range(100, 1, 4, 10, 32, 34), None);
}

// ─── Tensors ─────────────────────────────────────────────────────────────────

fn exact(v: TensorValues) -> Vec<f32> {
    match v {
        TensorValues::Exact(words) => floats(&words),
        _ => panic!("not exact"),
    }
}

#[test]
fn test_f32_passthrough() {
    let v = [1.5f32, -2.0, 3.25];
    let bytes: Vec<u8> = v.iter().flat_map(|f| f.to_le_bytes()).collect();
    let out = exact(tensor_to_f32(&bytes, TensorDtype::F32, 3));
    assert_eq!(out, vec![1.5, -2.0, 3.25]);
}

#[test]
fn test_f16_to_f32_lossless() {
    let bytes = [0x00u8, 0x3C, 0x00, 0xC0];
    let out = exact(tensor_to_f32(&bytes, TensorDtype::F16, 2));
    assert!((out[0] - 1.0).abs() < 1e-6);
    assert!((out[1] + 2.0).abs() < 1e-6);
}

#[test]
fn test_bf16_to_f32_exact() {
    let bytes = [0x80u8, 0x3F, 0x40, 0x40];
    let out = exact(tensor_to_f32(&bytes, TensorDtype::BF16, 2));
    assert_eq!(out[0], 1.0);
    assert_eq!(out[1], 3.0);
}

#[test]
fn test_unsupported_format_returns_none() {
    assert!(matches!(
        tensor_to_f32(&[0u8; 18], TensorDtype::Q4_0, 32),
        TensorValues::Unsupported
    ));
}

fn info(name: &str, shape: Vec<usize>, offset: u64, size: u64) -> TensorInfo {
    TensorInfo {
        name: name.to_string(),
        shape,
        dtype: TensorDtype::F32,
        data_offset: offset,
        data_size: size,
    }
}

#[test]
fn tensors_are_found_in_their_file() {
    let store = WeightStore::open(vec![info("a", vec![1], 0, 4), info("b", vec![1], 4, 4)]);
    let data = [1u8, 2, 3, 4, 5, 6, 7, 8];
    assert_eq!(store.tensor_bytes(&data, "b").unwrap(), &[5u8, 6, 7, 8]);
    assert!(store.tensor_bytes(&data, "c").is_none());
    assert_eq!(store.list_tensors().len(), 2);
    assert_eq!(store.tensor_info("a").unwrap().data_size, 4);
}

#[test]
fn tensors_are_uploaded_as_far_as_they_are_there() {
    let store = WeightStore::open(vec![info("a", vec![1], 0, 4), info("b", vec![1], 4, 4)]);
    let all = store.upload_order(&[1u8, 2, 3, 4, 5, 6, 7, 8]).ok().unwrap();
    assert_eq!(all[0], ("a".to_string(), vec![1u8, 2, 3, 4]));
    assert_eq!(all[1], ("b".to_string(), vec![5u8, 6, 7, 8]));
    let cut = store.upload_order(&[1u8, 2, 3, 4, 5]).err().unwrap();
    assert_eq!(cut.message(), "Tensor b fora dos limites do arquivo");
}

#[test]
fn missing_tensors_are_zero_and_embeddings_are_tied() {
    let embd: Vec<u8> = vec![1, 2, 3, 4];
    let (staging, device) = build_weight_bank(
        vec![("token_embd.weight".to_string(), embd.clone())],
        &vec![info("token_embd.weight", vec![1], 0, 4), info("blk.0.x", vec![2, 3], 4, 24)],
    );
    assert_eq!(staging.get("blk.0.x").unwrap(), &vec![0u8; 24]);
    assert_eq!(staging.get("output.weight").unwrap(), &embd);
    assert_eq!(device.get("output.weight").unwrap(), &embd);
    assert!(device.get("blk.0.x").is_none());
}

// ─── Compressed files ────────────────────────────────────────────────────────

#[test]
fn tiles_are_cut_into_their_runs() {
    let h = TileHeader { dtype: 0, num_near: 3, num_residuals: 2 };
    // 9 weights: two bitmaps of 2 bytes, 1 byte of deltas, 2 residuals, 27
    // bytes of mantissas and 2 bytes of signs behind a header of 8 bytes.
    let mut data: Vec<u8> = vec![0xEE; 5];
    data.extend(0..44u8);
    let (tile, next) = take_tile(&data, 5, 8, h, 9, 64).unwrap();
    assert_eq!(tile.bitmap_match, vec![8, 9]);
    assert_eq!(tile.bitmap_near, vec![10, 11]);
    assert_eq!(tile.near_deltas, vec![12]);
    assert_eq!(tile.residual_exponents, vec![13, 14]);
    assert_eq!(tile.mantissas.len(), 27);
    assert_eq!(tile.signs, vec![42, 43]);
    assert_eq!(next, 5 + 64);
    assert!(take_tile(&data[..48], 5, 8, h, 9, 64).is_none());
}

#[test]
fn entries_and_magic_are_checked() {
    assert!(check_magic(b"NSZ1rest", b"NSZ1"));
    assert!(!check_magic(b"GGUF", b"NSZ1"));
    assert!(!check_magic(b"NSZ", b"NSZ1"));
    let data = vec![3u8; 200];
    let (bytes, next) = take_entry(&data, 64).unwrap();
    assert_eq!(bytes.len(), 128);
    assert_eq!(next, 192);
    assert!(take_entry(&data, 73).is_none());
    assert_eq!(weights_in_tile(100, 1, 64), 36);
    assert_eq!(weights_in_tile(200, 1, 64), 64);
}

/// Entries name a tensor by their first byte; their second one is half of where
/// its tiles stand.
fn small_entry(bytes: &[u8]) -> Option<NszEntry> {
    if bytes[0] == 0 {
        return None;
    }
    Some(NszEntry {
        name: (bytes[0] as char).to_string(),
        compressed_offset: 2 * bytes[1] as usize,
        num_weights: bytes[2] as usize,
        num_tiles: bytes[3] as usize,
    })
}

/// Reads all tensors, and gives the mantissas of their tiles.
fn read_all(data: &[u8], count: usize) -> Vec<(String, Vec<Vec<u8>>)> {
    let layout = NszLayout { header_size: 1, tile_capacity: 4, alignment: 16 };
    let mut reader = NszReader::new(layout, count, 4);
    let mut all = Vec::new();
    let mut tiles = Vec::new();
    loop {
        match reader.next(data) {
            NszStep::Entry(b) => {
                tiles.clear();
                reader.entry(small_entry(&b));
            }
            NszStep::Header(b) => {
                let h = TileHeader { dtype: b[0], num_near: 0, num_residuals: 0 };
                if let Some(t) = reader.header(data, h) {
                    tiles.push(t.mantissas);
                }
            }
            NszStep::Tensor(name) => all.push((name, tiles.clone())),
            NszStep::Done => return all,
        }
    }
}

/// A header, two bitmaps, two bytes for each weight, and signs.
fn small_tile(n: u8, size: usize) -> Vec<u8> {
    let mut t = vec![1u8, 0, 0];
    t.extend((0..2 * n).map(|i| 10 * n + i));
    t.push(0);
    t.resize(size, 0);
    t
}

#[test]
fn files_are_read_entry_by_entry_and_tile_by_tile() {
    let mut data = b"NSZ1".to_vec();
    for head in [[b'a', 130, 6, 2], [b'b', 146, 1, 1]] {
        let mut entry = head.to_vec();
        entry.resize(128, 0);
        data.extend(entry);
    }
    data.extend(small_tile(4, 16));
    data.extend(small_tile(2, 16));
    data.extend(small_tile(1, 6));
    let a = vec![(40..48).collect::<Vec<u8>>(), vec![20, 21, 22, 23]];
    let b = vec![vec![10u8, 11]];
    assert_eq!(read_all(&data, 2), vec![("a".to_string(), a.clone()), ("b".to_string(), b)]);
    // One entry only.
    assert_eq!(read_all(&data, 1), vec![("a".to_string(), a.clone())]);
    // More entries than can be read: a tile is no entry.
    assert_eq!(read_all(&data, 3).len(), 2);
    // The last tile is cut short.
    data.pop();
    assert_eq!(read_all(&data, 2), vec![("a".to_string(), a), ("b".to_string(), vec![])]);
    // An entry that says nothing ends the file.
    data[4] = 0;
    assert!(read_all(&data, 2).is_empty());
}
