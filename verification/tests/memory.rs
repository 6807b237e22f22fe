use nodestor_inference::multi_tenant::{InferenceRequest, MultiTenantScheduler, PagePool};
use nodestor_inference::paged_attention::PagedAttentionManager;
use nodestor_inference::radix_cache::{RadixAttentionBridge, RadixCache, RadixNode};
use nodestor_inference::semantic_paging::SemanticPager;
use nodestor_inference::virtual_vram::{MemoryTier, VirtualVram, VramPageError};
use nodestor_inference::vram_budget::{InferenceMode, VramBudget};

// ─── Continuous batching ─────────────────────────────────────────────────────

#[test]
fn test_multi_tenant_paging() {
    let mut scheduler = MultiTenantScheduler::new(5, 10);

    scheduler.submit_request(InferenceRequest {
        session_id: 1,
        token_ids: vec![1; 15],
        is_prefill: true,
    });
    scheduler.submit_request(InferenceRequest {
        session_id: 2,
        token_ids: vec![2; 25],
        is_prefill: true,
    });

    let active = scheduler.schedule_next_batch();
    assert_eq!(active.len(), 2);
    assert!(!scheduler.page_pool.free_bitmap.contains(&true));

    scheduler.submit_request(InferenceRequest {
        session_id: 3,
        token_ids: vec![3; 5],
        is_prefill: true,
    });
    let active_fail = scheduler.schedule_next_batch();
    assert_eq!(active_fail.len(), 0);
}

#[test]
fn sessions_never_share_a_block() {
    let mut scheduler = MultiTenantScheduler::new(8, 4);
    for s in 1..4usize {
        scheduler.submit_request(InferenceRequest {
            session_id: s,
            token_ids: vec![s as u32; 8],
            is_prefill: true,
        });
    }
    let active = scheduler.schedule_next_batch();
    assert_eq!(active, vec![1, 2, 3]);
    let mut seen: Vec<usize> = Vec::new();
    for table in scheduler.session_tables.values() {
        for b in table.logical_to_physical.values() {
            assert!(!seen.contains(b));
            seen.push(*b);
        }
    }
    assert_eq!(seen.len(), 6);
}

#[test]
fn the_first_free_block_is_taken() {
    let mut pool = PagePool::new(2);
    assert_eq!(pool.allocate_block(), Some(0));
    assert_eq!(pool.allocate_block(), Some(1));
    assert_eq!(pool.allocate_block(), None);
    pool.free_block(0);
    pool.free_block(7);
    assert_eq!(pool.allocate_block(), Some(0));
    assert_eq!(pool.allocate_block(), None);
}

#[test]
fn no_block_is_lost() {
    let mut scheduler = MultiTenantScheduler::new(4, 4);
    for s in 1..3usize {
        scheduler.submit_request(InferenceRequest {
            session_id: s,
            token_ids: vec![s as u32; 12],
            is_prefill: true,
        });
    }
    assert_eq!(scheduler.schedule_next_batch(), vec![1]);
    let held: usize = scheduler
        .session_tables
        .values()
        .map(|t| t.logical_to_physical.len())
        .sum();
    let taken = scheduler.page_pool.free_bitmap.iter().filter(|free| !**free).count();
    assert_eq!((held, taken), (4, 4));
}

// ─── Paged attention ─────────────────────────────────────────────────────────

#[test]
fn test_paged_alloc_basic() {
    let mut mgr = PagedAttentionManager::new(64, 8, 128);
    mgr.register_request(1);
    mgr.allocate_tokens(1, 32).unwrap();
    assert_eq!(mgr.get_block_table(1).unwrap().len(), 2);
    assert_eq!(mgr.free_pages(), 62);
}

#[test]
fn test_paged_free_returns_to_pool() {
    let mut mgr = PagedAttentionManager::new(64, 8, 128);
    mgr.register_request(1);
    mgr.allocate_tokens(1, 16).unwrap();
    assert_eq!(mgr.free_pages(), 63);
    mgr.free_request(1);
    assert_eq!(mgr.free_pages(), 64);
}

#[test]
fn test_paged_vram_full_error() {
    let mut mgr = PagedAttentionManager::new(2, 8, 128);
    mgr.register_request(1);
    let result = mgr.allocate_tokens(1, 48);
    assert!(result.is_err());
}

#[test]
fn test_paged_multi_request() {
    let mut mgr = PagedAttentionManager::new(32, 4, 64);
    mgr.register_request(1);
    mgr.register_request(2);
    mgr.allocate_tokens(1, 16).unwrap();
    mgr.allocate_tokens(2, 32).unwrap();
    assert_eq!(mgr.free_pages(), 29);
    mgr.free_request(1);
    assert_eq!(mgr.free_pages(), 30);
}

#[test]
fn test_block_table_lookup() {
    let mut mgr = PagedAttentionManager::new(16, 4, 64);
    mgr.register_request(42);
    mgr.allocate_tokens(42, 16).unwrap();
    let table = mgr.get_block_table(42).unwrap();
    assert_eq!(table.len(), 1);
    assert!(table.physical_block(0).is_some());
}

#[test]
fn test_report_format() {
    let mgr = PagedAttentionManager::new(100, 4, 128);
    let report = mgr.report();
    assert!(report.contains("PagedKV"));
    assert!(report.contains("100"));
}

#[test]
fn test_copy_on_write_exclusive_page() {
    let mut mgr = PagedAttentionManager::new(16, 4, 64);
    mgr.register_request(1);
    mgr.allocate_tokens(1, 16).unwrap();
    let phys_before = mgr.get_block_table(1).unwrap().mapping[0];
    let phys_after = mgr.copy_on_write(1, 0).unwrap();
    assert_eq!(phys_before, phys_after);
    assert_eq!(mgr.stats.cow_copies, 0);
}

#[test]
fn requests_hold_different_pages() {
    let mut mgr = PagedAttentionManager::new(8, 4, 64);
    mgr.register_request(1);
    mgr.register_request(2);
    mgr.allocate_tokens(1, 32).unwrap();
    mgr.allocate_tokens(2, 32).unwrap();
    let a = mgr.get_block_table(1).unwrap().mapping.clone();
    let b = mgr.get_block_table(2).unwrap().mapping.clone();
    assert!(a.iter().all(|p| !b.contains(p)));
    assert_eq!(mgr.allocated_tokens(1), 32);
}

#[test]
fn pages_of_unknown_requests_are_not_copied() {
    let mut mgr = PagedAttentionManager::new(8, 4, 64);
    assert!(mgr.copy_on_write(9, 0).is_err());
    assert!(mgr.get_block_table(9).is_none());
}

// ─── Prefix cache ────────────────────────────────────────────────────────────

#[test]
fn test_radix_hash_deterministic() {
    let tokens = vec![1u32, 2, 3, 4, 5];
    let h1 = RadixCache::hash_tokens(&tokens);
    let h2 = RadixCache::hash_tokens(&tokens);
    assert_eq!(h1, h2);
}

#[test]
fn test_radix_hash_different_sequences() {
    let h1 = RadixCache::hash_tokens(&[1, 2, 3]);
    let h2 = RadixCache::hash_tokens(&[1, 2, 4]);
    assert_ne!(h1, h2);
}

#[test]
fn hash_of_nothing_is_the_offset() {
    assert_eq!(RadixCache::hash_tokens(&[]), 14695981039346656037);
}

#[test]
fn test_radix_lookup_empty() {
    let mut cache = RadixCache::new();
    let (matched, blocks) = cache.lookup(&vec![12345]);
    assert_eq!(matched, 0);
    assert!(blocks.is_empty());
}

#[test]
fn test_radix_insert_and_hit() {
    let mut cache = RadixCache::new();
    let hash =
        RadixCache::hash_tokens(&[1, 2, 3, 4, 5, 6, 7, 8, 9, 10, 11, 12, 13, 14, 15, 16]);
    cache.insert(&vec![hash], &vec![42]);
    let (matched, blocks) = cache.lookup(&vec![hash]);
    assert!(matched > 0);
    assert_eq!(blocks[0], 42);
}

#[test]
fn test_radix_cache_miss() {
    let mut cache = RadixCache::new();
    let (matched, _) = cache.lookup(&vec![999999]);
    assert_eq!(matched, 0);
    assert_eq!(cache.stats.cache_misses, 1);
}

#[test]
fn test_radix_bridge_new_request() {
    let mut bridge = RadixAttentionBridge::new(64, 4, 128);
    let tokens: Vec<u32> = (0..32).collect();
    let (reused, new_pages) = bridge.register_with_prefix(1, &tokens);
    assert_eq!(reused, 0);
    assert!(new_pages > 0);
}

#[test]
fn test_radix_report() {
    let cache = RadixCache::new();
    assert!(cache.report().contains("RadixCache"));
}

#[test]
fn test_bridge_report() {
    let bridge = RadixAttentionBridge::new(32, 4, 64);
    let report = bridge.report();
    assert!(report.contains("PagedKV"));
    assert!(report.contains("RadixCache"));
}

#[test]
fn inserted_prefixes_are_found_block_by_block() {
    let mut cache = RadixCache::new();
    cache.insert(&vec![7, 8, 9], &vec![70, 80, 90]);
    let (_, blocks) = cache.lookup(&vec![7, 8, 1]);
    assert_eq!(blocks, vec![70, 80]);
    let (_, all) = cache.lookup(&vec![7, 8, 9]);
    assert_eq!(all, vec![70, 80, 90]);
}

#[test]
fn new_nodes_are_leaves() {
    let mut node = RadixNode::new(vec![3], 16);
    assert!(node.is_leaf());
    assert_eq!(node.ref_count, 1);
    node.children.insert(7, Box::new(RadixNode::new(vec![], 0)));
    assert!(!node.is_leaf());
}

#[test]
fn pages_that_are_no_longer_in_use_are_not_shared() {
    let mut bridge = RadixAttentionBridge::new(8, 4, 64);
    let tokens: Vec<u32> = (0..40).collect();
    let (reused, fresh) = bridge.register_with_prefix(1, &tokens);
    assert_eq!((reused, fresh), (0, 3));
    assert_eq!(bridge.paged.free_pages(), 5);
    assert_eq!(bridge.paged.stats.allocations, 3);
    let head = RadixCache::hash_tokens(&tokens[..16]);
    bridge.radix.insert(&vec![head], &vec![7]);
    let (reused, fresh) = bridge.register_with_prefix(2, &tokens);
    assert_eq!((reused, fresh), (0, 3));
    assert_eq!(bridge.paged.stats.allocations, 6);
    assert_eq!(bridge.paged.get_block_table(2).unwrap().len(), 3);
}

#[test]
fn known_prefixes_are_shared() {
    let mut bridge = RadixAttentionBridge::new(8, 4, 64);
    let tokens: Vec<u32> = (0..40).collect();
    assert_eq!(bridge.register_with_prefix(1, &tokens), (0, 3));
    let first = bridge.paged.get_block_table(1).unwrap().mapping.clone();
    let blocks: Vec<u64> =
        tokens.chunks(16).take(2).map(|b| RadixCache::hash_tokens(b)).collect();
    bridge.radix.insert(&blocks, &first[..2].to_vec());
    assert_eq!(bridge.register_with_prefix(2, &tokens), (2, 1));
    let second = bridge.paged.get_block_table(2).unwrap().mapping.clone();
    assert_eq!(second.len(), 3);
    assert_eq!(second[..2], first[..2]);
    assert_ne!(second[2], first[2]);
    assert_eq!(bridge.paged.free_pages(), 4);
    bridge.paged.free_request(1);
    assert_eq!(bridge.paged.free_pages(), 5);
    bridge.paged.free_request(2);
    assert_eq!(bridge.paged.free_pages(), 8);
}

#[test]
fn requests_without_room_get_no_pages() {
    let mut bridge = RadixAttentionBridge::new(1, 4, 64);
    let tokens: Vec<u32> = (0..32).collect();
    assert_eq!(bridge.register_with_prefix(1, &tokens), (0, 0));
    assert_eq!(bridge.paged.free_pages(), 1);
}

#[test]
fn too_many_tokens_are_refused() {
    let mut mgr = PagedAttentionManager::new(2, 8, 128);
    mgr.register_request(1);
    assert!(mgr.allocate_tokens(1, usize::MAX).is_err());
    assert_eq!(mgr.free_pages(), 2);
}

#[test]
fn allocated_pages_come_back() {
    let mut mgr = PagedAttentionManager::new(6, 4, 64);
    mgr.register_request(1);
    mgr.allocate_tokens(1, 40).unwrap();
    assert_eq!(mgr.allocated_tokens(1), 48);
    mgr.register_request(2);
    mgr.allocate_tokens(2, 17).unwrap();
    assert_eq!(mgr.free_pages(), 1);
    mgr.free_request(2);
    assert_eq!(mgr.free_pages(), 3);
    assert_eq!(mgr.allocated_tokens(1), 48);
}

#[test]
fn lookups_find_the_longest_known_prefix() {
    let mut cache = RadixCache::new();
    cache.insert(&vec![1, 2, 3], &vec![10, 20, 30]);
    cache.insert(&vec![1, 2, 4, 5], &vec![11, 21, 40, 50]);
    assert_eq!(cache.lookup(&vec![1, 2, 4, 9]).1, vec![10, 20, 40]);
    assert_eq!(cache.lookup(&vec![1, 2, 3, 4]).1, vec![10, 20, 30]);
    assert_eq!(cache.lookup(&vec![2, 1]).0, 0);
}

// ─── Budgets ─────────────────────────────────────────────────────────────────

#[test]
fn test_budget_dense_8gb() {
    let budget = VramBudget::new(
        8 * 1024 * 1024 * 1024,
        1536 * 1024 * 1024,
        InferenceMode::Dense,
    );
    let free_gb = budget.free_vram as f64 / 1024.0 / 1024.0 / 1024.0;
    assert!((free_gb - 6.5).abs() < 0.1);
    let ceiling_gb = budget.nodestor_ceiling as f64 / 1024.0 / 1024.0 / 1024.0;
    assert!((ceiling_gb - 4.875).abs() < 0.1);
    assert!(budget.primary_budget > 0);
    assert!(budget.primary_budget < budget.nodestor_ceiling);
    println!("{}", budget.report());
}

#[test]
fn test_budget_moe_12gb() {
    let budget = VramBudget::new(
        12 * 1024 * 1024 * 1024,
        1200 * 1024 * 1024,
        InferenceMode::MoE { num_experts: 8, top_k: 2 },
    );
    let total_allocated = budget.primary_budget + budget.cache_budget + budget.kv_budget;
    assert!(total_allocated <= budget.nodestor_ceiling);
    println!("{}", budget.report());
}

#[test]
fn test_never_exceed_ceiling() {
    for total_gb in [4u64, 8, 12, 16, 24] {
        let budget = VramBudget::estimate(total_gb * 1024 * 1024 * 1024);
        let sum = budget.primary_budget + budget.cache_budget + budget.kv_budget;
        assert!(sum <= budget.nodestor_ceiling);
    }
}

#[test]
fn test_refresh_reduces_budget() {
    let mut budget =
        VramBudget::new(8 * 1024 * 1024 * 1024, 1024 * 1024 * 1024, InferenceMode::Dense);
    let initial_ceiling = budget.nodestor_ceiling;
    budget.refresh(3 * 1024 * 1024 * 1024);
    assert!(budget.nodestor_ceiling < initial_ceiling);
}

#[test]
fn test_q6k_size_calculation() {
    let bytes = VramBudget::q6k_embedding_bytes(128256, 4096);
    let mb = bytes / 1024 / 1024;
    assert!(mb < 400);
    assert!(mb > 200);
    println!("{} MB", mb);
}

#[test]
fn test_can_fit_draft_llama_8b_on_8gb() {
    let budget = VramBudget::new(
        8 * 1024 * 1024 * 1024,
        1536 * 1024 * 1024,
        InferenceMode::Dense,
    );
    assert!(budget.can_fit_draft_q6k(128256, 4096));
}

#[test]
fn the_ceiling_is_three_quarters_of_what_is_free() {
    let budget = VramBudget::new(1000, 200, InferenceMode::Dense);
    assert_eq!(budget.free_vram, 800);
    assert_eq!(budget.nodestor_ceiling, 600);
    assert_eq!(budget.primary_budget, 360);
}

#[test]
fn the_system_is_taken_to_use_a_part() {
    let b = VramBudget::detect(10_000, InferenceMode::Dense);
    assert_eq!(b.used_by_system, 2_000);
    assert_eq!(b.nodestor_ceiling, 6_000);
    assert!(b.can_fit_kv(b.kv_budget));
    assert!(!b.can_fit_kv(b.kv_budget + 1));
    assert_eq!(VramBudget::estimate(10_000).used_by_system, 2_000);
}

// ─── Three tiers of memory ───────────────────────────────────────────────────

#[test]
fn test_virtual_vram_paging() {
    let mut vram = VirtualVram::new(1024, 4096);
    vram.register_page(0, 512, MemoryTier::Ssd);
    vram.register_page(1, 512, MemoryTier::Ssd);
    vram.register_page(2, 512, MemoryTier::Ssd);

    let tier = vram.request_page(0, MemoryTier::Vram, 1).unwrap();
    assert_eq!(tier, MemoryTier::Vram);
    assert_eq!(vram.vram_used_bytes, 512);

    let tier = vram.request_page(1, MemoryTier::Vram, 2).unwrap();
    assert_eq!(tier, MemoryTier::Vram);
    assert_eq!(vram.vram_used_bytes, 1024);

    let tier = vram.request_page(2, MemoryTier::Vram, 3).unwrap();
    assert_eq!(tier, MemoryTier::Vram);
    assert_eq!(vram.vram_used_bytes, 1024);

    let page0 = &vram.page_table[&0];
    assert_eq!(page0.current_tier, MemoryTier::Ram);
    assert!(vram.stats.promotions >= 3);
    assert!(vram.stats.demotions >= 1);
}

#[test]
fn test_virtual_vram_lru_order() {
    let mut vram = VirtualVram::new(1024, 8192);
    for i in 0..4u64 {
        vram.register_page(i, 512, MemoryTier::Ssd);
    }
    vram.request_page(0, MemoryTier::Vram, 100).unwrap();
    vram.request_page(1, MemoryTier::Vram, 200).unwrap();
    vram.request_page(0, MemoryTier::Vram, 300).unwrap();
    vram.request_page(2, MemoryTier::Vram, 400).unwrap();
    assert_eq!(vram.page_table[&0].current_tier, MemoryTier::Vram);
    assert_eq!(vram.page_table[&1].current_tier, MemoryTier::Ram);
    assert_eq!(vram.page_table[&2].current_tier, MemoryTier::Vram);
}

#[test]
fn test_virtual_vram_hit_rate() {
    let mut vram = VirtualVram::new(2048, 4096);
    vram.register_page(0, 512, MemoryTier::Vram);
    for i in 1..=10 {
        vram.request_page(0, MemoryTier::Vram, i).unwrap();
    }
    let rate = vram.stats.hits as f64 / (vram.stats.hits + vram.stats.misses) as f64;
    assert!((rate - 1.0).abs() < f64::EPSILON);
    assert_eq!(vram.stats.hits, 10);
    assert_eq!(vram.stats.misses, 0);
}

#[test]
fn unknown_and_oversized_pages_are_refused() {
    let mut vram = VirtualVram::new(1024, 4096);
    assert!(matches!(
        vram.request_page(7, MemoryTier::Vram, 1),
        Err(VramPageError::PageNotFound(7))
    ));
    vram.register_page(1, 5000, MemoryTier::Ssd);
    assert!(vram.request_page(1, MemoryTier::Vram, 2).is_err());
}

// ─── Layers in fast memory ───────────────────────────────────────────────────

#[test]
fn test_semantic_paging() {
    let mut pager = SemanticPager::new(200);
    let bits = |v: &[f32]| -> Vec<u32> { v.iter().map(|x| x.to_bits()).collect() };
    pager.register_layer(1, bits(&[0.0, 0.0, 0.0]), 100, true);
    pager.register_layer(2, bits(&[1.0, 0.0, 0.0]), 100, false);
    pager.register_layer(3, bits(&[0.0, 0.0, 1.0]), 100, false);

    let query = [0.0f32, 0.1, 0.9];
    let weights: Vec<u32> = pager
        .layers
        .iter()
        .map(|l| {
            let dot: f32 = l
                .semantic_key
                .iter()
                .zip(query.iter())
                .map(|(k, q)| f32::from_bits(*k) * q)
                .sum();
            dot.to_bits()
        })
        .collect();
    pager.execute_semantic_paging(&weights);

    let in_vram = |id: usize| pager.layers.iter().find(|l| l.id == id).unwrap().in_vram;
    assert!(in_vram(1));
    assert!(!in_vram(2));
    assert!(in_vram(3));
    assert_eq!(pager.current_vram_usage, 200);
}

#[test]
fn a_layer_that_does_not_fit_stays_out() {
    let mut pager = SemanticPager::new(150);
    pager.register_layer(1, vec![], 100, false);
    pager.register_layer(2, vec![], 100, true);
    pager.execute_semantic_paging(&vec![1.0f32.to_bits(), 0.0f32.to_bits()]);
    assert!(!pager.layers[0].in_vram);
    assert!(pager.layers[1].in_vram);
    assert_eq!(pager.current_vram_usage, 100);
}

#[test]
fn tiers_are_charged_for_their_pages() {
    let mut vram = VirtualVram::new(100, 100);
    vram.register_page(1, 60, MemoryTier::Ssd);
    vram.register_page(2, 60, MemoryTier::Ssd);
    vram.request_page(1, MemoryTier::Vram, 1).unwrap();
    vram.request_page(2, MemoryTier::Vram, 2).unwrap();
    let sum = |v: &VirtualVram, tier: MemoryTier| -> u64 {
        v.page_table.values().filter(|p| p.current_tier == tier).map(|p| p.size_bytes).sum()
    };
    assert_eq!((vram.vram_used_bytes, vram.ram_used_bytes), (60, 60));
    assert_eq!(sum(&vram, MemoryTier::Vram), vram.vram_used_bytes);
    assert_eq!(sum(&vram, MemoryTier::Ram), vram.ram_used_bytes);
}
