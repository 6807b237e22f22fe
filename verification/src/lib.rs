//! Verified core of a local inference engine: memory accounting, caches,
//! speculative decoding, file formats and the rules around them.

pub mod audit_report;
pub mod clock;
pub mod description;
pub mod errors;
pub mod float_bits;
pub mod json;
pub mod keyed_map;
pub mod le_bytes;
pub mod lora_core;
pub mod lsh_buckets;
pub mod mcts_engine;
pub mod medusa_heads;
pub mod memory_state;
pub mod moe_kernel;
pub mod multi_draft;
pub mod multi_tenant;
pub mod named_map;
pub mod nsz;
pub mod nsz_reader;
pub mod number_code;
pub mod numerals;
pub mod observability;
pub mod paged_attention;
pub mod paths;
pub mod persistent_memory;
pub mod pipeline;
pub mod platform_io;
pub mod preference_collector;
pub mod prompt_lookup;
pub mod prompt_order;
pub mod prompt_texts;
pub mod quant_invariant;
pub mod radix_cache;
pub mod radix_history;
pub mod ranking;
pub mod refusal_mapper;
pub mod rest_trie;
pub mod sae_engine;
pub mod sampler;
pub mod semantic_chunker;
pub mod semantic_paging;
pub mod sparse_activation;
pub mod spec_stream_v2;
pub mod speculation;
pub mod ssd_stream;
pub mod ssd_stripe;
pub mod steering_engine;
pub mod syntactic_skeleton;
pub mod system_prompt_builder;
pub mod text;
pub mod timeline_semaphore;
pub mod tokenizer;
pub mod tool_registry;
pub mod trainer;
pub mod virtual_vram;
pub mod vram_budget;
pub mod vulkan_adaptive;
pub mod wavefront_scheduler;
pub mod weight_store;
pub mod whisper_pipeline;
