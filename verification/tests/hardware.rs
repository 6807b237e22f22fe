use std::collections::HashMap;

use nodestor_inference::timeline_semaphore::{LayerFence, TimelineSemaphore};
use nodestor_inference::vulkan_adaptive::{
    AdaptivePipeline, GpuProfile, GpuVendor, ShaderTemplate, SpecConstant, SpecValidationError,
    SpecValue,
};
use nodestor_inference::wavefront_scheduler::WavefrontScheduler;

fn rtx4090() -> GpuProfile {
    GpuProfile {
        name: "NVIDIA GeForce RTX 4090".to_string(),
        vendor: GpuVendor::Nvidia,
        vram_total_bytes: 24 * 1024 * 1024 * 1024,
        vram_free_bytes: 20 * 1024 * 1024 * 1024,
        memory_bandwidth_gbps: 1008.0f32.to_bits(),
        compute_units: 128,
        max_workgroup_size_x: 1024,
        max_workgroup_size_y: 1024,
        max_shared_memory_bytes: 65536,
        supports_subgroup_ops: true,
        subgroup_size: 32,
    }
}

fn intel_uhd() -> GpuProfile {
    GpuProfile {
        name: "Intel UHD Graphics 630".to_string(),
        vendor: GpuVendor::Intel,
        vram_total_bytes: 2 * 1024 * 1024 * 1024,
        vram_free_bytes: 1024 * 1024 * 1024,
        memory_bandwidth_gbps: 42.0f32.to_bits(),
        compute_units: 24,
        max_workgroup_size_x: 256,
        max_workgroup_size_y: 256,
        max_shared_memory_bytes: 32768,
        supports_subgroup_ops: false,
        subgroup_size: 16,
    }
}

fn amd_rx7900() -> GpuProfile {
    GpuProfile {
        name: "AMD Radeon RX 7900 XTX".to_string(),
        vendor: GpuVendor::Amd,
        vram_total_bytes: 24 * 1024 * 1024 * 1024,
        vram_free_bytes: 20 * 1024 * 1024 * 1024,
        memory_bandwidth_gbps: 960.0f32.to_bits(),
        compute_units: 96,
        max_workgroup_size_x: 1024,
        max_workgroup_size_y: 1024,
        max_shared_memory_bytes: 65536,
        supports_subgroup_ops: true,
        subgroup_size: 64,
    }
}

fn mobile_qualcomm() -> GpuProfile {
    GpuProfile {
        name: "Qualcomm Adreno 750".to_string(),
        vendor: GpuVendor::Qualcomm,
        vram_total_bytes: 512 * 1024 * 1024,
        vram_free_bytes: 256 * 1024 * 1024,
        memory_bandwidth_gbps: 25.0f32.to_bits(),
        compute_units: 6,
        max_workgroup_size_x: 128,
        max_workgroup_size_y: 128,
        max_shared_memory_bytes: 16384,
        supports_subgroup_ops: false,
        subgroup_size: 32,
    }
}

fn constant<'a>(p: &'a AdaptivePipeline, template: &str, name: &str) -> &'a SpecConstant {
    p.templates
        .get(template)
        .unwrap()
        .spec_constants
        .iter()
        .find(|s| s.name == name)
        .unwrap()
}

// ─── Pipelines that adapt ────────────────────────────────────────────────────

#[test]
fn test_adapt_rtx4090() {
    let mut pipeline = AdaptivePipeline::new(rtx4090());
    let mutations = pipeline.adapt_to_hardware().unwrap();
    assert!(mutations > 0);
    assert_eq!(
        constant(&pipeline, "hnsw_vector_search", "WORKGROUP_SIZE_X").value,
        SpecValue::U32(32)
    );
    assert_eq!(
        constant(&pipeline, "hnsw_vector_search", "USE_SHARED_MEMORY").value,
        SpecValue::U32(1)
    );
    assert_eq!(constant(&pipeline, "draft_token_verify", "BATCH_SIZE").value, SpecValue::U32(64));
    assert_eq!(
        constant(&pipeline, "draft_token_verify", "PRECISION_MODE").value,
        SpecValue::U32(0)
    );
    assert!(pipeline.verify_all_templates().is_ok());
    assert_eq!(pipeline.stats.mutations_rejected, 0);
}

#[test]
fn test_adapt_intel_uhd() {
    let mut pipeline = AdaptivePipeline::new(intel_uhd());
    pipeline.adapt_to_hardware().unwrap();
    assert_eq!(constant(&pipeline, "draft_token_verify", "BATCH_SIZE").value, SpecValue::U32(16));
    assert_eq!(
        constant(&pipeline, "draft_token_verify", "PRECISION_MODE").value,
        SpecValue::U32(1)
    );
    assert!(pipeline.verify_all_templates().is_ok());
}

#[test]
fn test_adapt_amd_wavefront() {
    let mut pipeline = AdaptivePipeline::new(amd_rx7900());
    pipeline.adapt_to_hardware().unwrap();
    assert_eq!(
        constant(&pipeline, "hnsw_vector_search", "WORKGROUP_SIZE_X").value,
        SpecValue::U32(64)
    );
}

#[test]
fn test_adapt_mobile() {
    let mut pipeline = AdaptivePipeline::new(mobile_qualcomm());
    pipeline.adapt_to_hardware().unwrap();
    assert_eq!(
        constant(&pipeline, "hnsw_vector_search", "USE_SHARED_MEMORY").value,
        SpecValue::U32(0)
    );
    assert_eq!(constant(&pipeline, "draft_token_verify", "BATCH_SIZE").value, SpecValue::U32(8));
}

#[test]
fn test_security_rejects_out_of_bounds() {
    let mut pipeline = AdaptivePipeline::new(GpuProfile::default());
    let result = pipeline.apply_mutation("hnsw_vector_search", 0, SpecValue::U32(2048));
    assert!(result.is_err());
    assert_eq!(pipeline.stats.mutations_rejected, 1);
    assert_eq!(pipeline.stats.mutations_applied, 0);
    let e = result.err().unwrap();
    assert_eq!(
        e.message("U32(2048)", "U32(32)", "U32(1024)"),
        "SECURITY: Constant 'WORKGROUP_SIZE_X' value U32(2048) is outside safe bounds [U32(32), U32(1024)]"
    );
}

#[test]
fn test_locked_template_rejects() {
    let mut pipeline = AdaptivePipeline::new(rtx4090());
    pipeline.templates.get_mut("hnsw_vector_search").unwrap().locked = true;
    let result = pipeline.adapt_template("hnsw_vector_search", &rtx4090());
    assert!(result.is_err());
    assert!(matches!(result.err().unwrap()[0], SpecValidationError::LockedConstant { .. }));
}

#[test]
fn test_vulkan_serialization() {
    let pipeline = AdaptivePipeline::new(GpuProfile::default());
    let (data, entries) = pipeline.serialize_spec_constants("hnsw_vector_search").unwrap();
    assert_eq!(data.len(), 16);
    assert_eq!(entries.len(), 4);
    for (i, entry) in entries.iter().enumerate() {
        assert_eq!(entry.offset, (i * 4) as u32);
        assert_eq!(entry.size, 4);
    }
    let first_value = u32::from_le_bytes([data[0], data[1], data[2], data[3]]);
    assert_eq!(first_value, 64);
    assert!(pipeline.serialize_spec_constants("no_such_shader").is_none());
}

#[test]
fn test_audit_log_completeness() {
    let mut pipeline = AdaptivePipeline::new(rtx4090());
    let mutations = pipeline.adapt_to_hardware().unwrap();
    assert_eq!(pipeline.mutation_log.len(), mutations);
    for record in &pipeline.mutation_log {
        assert!(!record.shader_name.is_empty());
        assert!(!record.constant_name.is_empty());
        assert!(record.reason.contains("RTX 4090"));
        assert!(record.timestamp > std::time::UNIX_EPOCH);
    }
    assert_ne!(pipeline.last_state_hash, 0);
}

#[test]
fn the_report_names_every_change_and_constant() {
    let mut pipeline = AdaptivePipeline::new(rtx4090());
    pipeline.adapt_to_hardware().unwrap();
    let reason = pipeline.mutation_log[0].reason.clone();
    let report = pipeline.audit_report(&HashMap::new());
    assert!(report.starts_with(
        "═══ VULKAN ADAPTIVE PIPELINE — AUDIT REPORT ═══\n\nGPU: NVIDIA GeForce RTX 4090 (Nvidia)\n"
    ));
    assert!(report.contains("CUs: 128 | Subgroup: 32 | VRAM: 24576MB\n"));
    assert!(report.contains("\n--- Current Constants ---\nShader: hnsw_vector_search\n  [0] "));
    assert!(report.contains(&format!("\n    Reason: {}\n", reason)));
    assert!(report.ends_with(&format!("\nState Hash: {:#018x}\n", pipeline.last_state_hash)));
    for (i, m) in pipeline.mutation_log.iter().enumerate() {
        assert!(report.contains(&format!(
            "[{}] {}.{}: {:?} → {:?}\n",
            i, m.shader_name, m.constant_name, m.old_value, m.new_value
        )));
    }
}

#[test]
fn real_and_negative_values_are_shown() {
    let mut pipeline = AdaptivePipeline::new(rtx4090());
    let half = 0.5f32.to_bits();
    let mut template = ShaderTemplate::draft_verify_template();
    template.spec_constants[0].value = SpecValue::F32(half);
    template.spec_constants[1].value = SpecValue::I32(-7);
    template.spec_constants[2].value = SpecValue::I32(i32::MIN);
    pipeline.templates.insert("draft_token_verify".to_string(), template);
    let mut reals = HashMap::new();
    reals.insert(half, "0.5".to_string());
    let report = pipeline.audit_report(&reals);
    assert!(report.contains("BATCH_SIZE = F32(0.5) (bounds: U32(1)..U32(128))\n"));
    assert!(report.contains("MAX_DRAFT_TOKENS = I32(-7) ("));
    assert!(report.contains("PRECISION_MODE = I32(-2147483648) ("));
}

#[test]
fn test_spec_value_bounds() {
    assert!(SpecValue::U32(50).is_within(&SpecValue::U32(10), &SpecValue::U32(100)));
    assert!(!SpecValue::U32(5).is_within(&SpecValue::U32(10), &SpecValue::U32(100)));
    assert!(!SpecValue::U32(101).is_within(&SpecValue::U32(10), &SpecValue::U32(100)));
    let f = |x: f32| SpecValue::F32(x.to_bits());
    assert!(f(0.5).is_within(&f(0.0), &f(1.0)));
    assert!(!f(-0.1).is_within(&f(0.0), &f(1.0)));
    assert!(!SpecValue::U32(50).is_within(&f(0.0), &f(100.0)));
}

#[test]
fn bench_adapt_all_gpus() {
    let gpus = vec![
        ("RTX 4090", rtx4090()),
        ("Intel UHD", intel_uhd()),
        ("AMD RX 7900", amd_rx7900()),
        ("Qualcomm Adreno", mobile_qualcomm()),
    ];
    for (name, gpu) in gpus {
        let mut pipeline = AdaptivePipeline::new(gpu);
        for _ in 0..1000 {
            pipeline.templates.insert(
                "hnsw_vector_search".to_string(),
                ShaderTemplate::hnsw_search_template(),
            );
            pipeline.templates.insert(
                "draft_token_verify".to_string(),
                ShaderTemplate::draft_verify_template(),
            );
            pipeline.adapt_to_hardware().unwrap();
            pipeline.serialize_spec_constants("hnsw_vector_search").unwrap();
        }
        println!(
            "{} {} {}",
            name, pipeline.stats.mutations_applied, pipeline.stats.mutations_rejected
        );
        assert!(pipeline.verify_all_templates().is_ok());
    }
}

// ─── Timeline semaphores ─────────────────────────────────────────────────────

#[test]
fn semaphore_initial_value() {
    let s = TimelineSemaphore::new(5);
    assert_eq!(s.current(), 5);
}

#[test]
fn semaphore_signal_advances_counter() {
    let mut s = TimelineSemaphore::new(0);
    assert!(s.signal(3));
    assert_eq!(s.current(), 3);
    assert!(!s.signal(1));
    assert_eq!(s.current(), 3);
    assert!(s.signal(10));
    assert_eq!(s.current(), 10);
}

#[test]
fn semaphore_wait_for_already_satisfied() {
    let s = TimelineSemaphore::new(100);
    assert!(s.wait_for(50));
    assert_eq!(s.current(), 100);
}

#[test]
fn semaphore_wait_for_timeout_returns_false_on_timeout() {
    let s = TimelineSemaphore::new(0);
    assert_eq!(s.wait_for_timeout(99, false), None);
    let satisfied = s.wait_for_timeout(99, true).unwrap();
    assert!(!satisfied);
}

#[test]
fn semaphore_wait_for_timeout_returns_true_when_signalled() {
    let mut s = TimelineSemaphore::new(0);
    assert_eq!(s.wait_for_timeout(1, false), None);
    s.signal(1);
    assert_eq!(s.wait_for_timeout(1, false), Some(true));
    assert_eq!(s.wait_for_timeout(1, true), Some(true));
}

#[test]
fn layer_fence_cpu_gpu_pipeline_ordering() {
    let mut fence = LayerFence::new();
    let n_layers = 4u64;
    let mut attn_log = Vec::new();
    let mut ffn_log = Vec::new();
    while ffn_log.len() < n_layers as usize {
        let a = attn_log.len() as u64;
        let f = ffn_log.len() as u64;
        let attn_turn = fence.cpu_wait_before_attn(a);
        let ffn_turn = fence.gpu_wait_before_ffn(f);
        assert!(attn_turn != ffn_turn);
        if attn_turn {
            attn_log.push(a);
            fence.cpu_signal_attn_done(a);
        } else {
            ffn_log.push(f);
            fence.gpu_signal_ffn_done(f);
        }
    }
    assert_eq!(attn_log, (0..n_layers).collect::<Vec<_>>());
    assert_eq!(ffn_log, (0..n_layers).collect::<Vec<_>>());
}

// ─── Slices ──────────────────────────────────────────────────────────────────

fn rows_for(hidden_dim: usize, flops: f64) -> usize {
    let per_row = 2.0 * hidden_dim as f64;
    let budget = flops * 0.25 * (4.0 / 1000.0);
    (budget / per_row).max(32.0) as usize
}

fn scheduler(rows_per_slice: usize) -> WavefrontScheduler {
    WavefrontScheduler {
        rows_per_slice,
        slices_dispatched: 0,
        total_dispatch_ns: 0,
        cooperative_yield: false,
    }
}

#[test]
fn wavefront_all_rows_covered() {
    let sched = scheduler(64);
    let total = 256usize;
    let covered: usize = sched.dispatch_sliced(total).iter().map(|(s, e)| e - s).sum();
    assert_eq!(covered, total);
}

#[test]
fn wavefront_each_slice_within_budget() {
    let sched = scheduler(32);
    for (s, e) in sched.dispatch_sliced(100) {
        assert!(e - s <= 32);
    }
}

#[test]
fn wavefront_empty_is_noop() {
    let sched = WavefrontScheduler::default();
    assert!(sched.dispatch_sliced(0).is_empty());
    assert_eq!(sched.slices_dispatched, 0);
}

#[test]
fn wavefront_rows_per_slice_is_power_of_two_in_range() {
    let sched = WavefrontScheduler::new(rows_for(2048, 6.175e12));
    let n = sched.rows_per_slice;
    assert!(n >= 32 && n <= 4096);
    assert!(n.is_power_of_two());
    assert_eq!(n, WavefrontScheduler::default().rows_per_slice);
    assert_eq!(WavefrontScheduler::new(33).rows_per_slice, 64);
    assert_eq!(WavefrontScheduler::new(1).rows_per_slice, 32);
}

#[test]
fn wavefront_dispatch_counter_matches_slice_count() {
    let mut sched = scheduler(10);
    let total = 35usize;
    let slices = sched.dispatch_sliced(total);
    assert_eq!(slices, vec![(0, 10), (10, 20), (20, 30), (30, 35)]);
    for (_, e) in slices {
        sched.record_slice(e, total, 5);
    }
    assert_eq!(sched.slices_dispatched, 4);
    assert_eq!(sched.total_dispatch_ns, 20);
}

#[test]
fn the_counter_is_the_largest_signal() {
    let mut s = TimelineSemaphore::new(2);
    for v in [5, 1, 4] {
        s.signal(v);
    }
    assert_eq!(s.current(), 5);
    assert!(s.wait_for(5) && !s.wait_for(6));
    let mut f = LayerFence::new();
    f.cpu_signal_attn_done(2);
    assert!(f.gpu_wait_before_ffn(2) && !f.gpu_wait_before_ffn(3));
    assert!(f.cpu_wait_before_attn(0) && !f.cpu_wait_before_attn(1));
}
