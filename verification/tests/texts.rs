use nodestor_inference::float_bits::{abs_of, check_ge, check_lt};
use nodestor_inference::multi_tenant::InferenceRequest;
use nodestor_inference::named_map::NamedMap;
use nodestor_inference::numerals::parse_number;
use nodestor_inference::pipeline::{
    can_count_layers, context_id, count_layers, device_stays, effective_prompt, enough_samples, generated_text,
    generation_stats, generation_tokenizer, head_dim, negative_texts, positive_texts,
    prompt_tokens, rms_eps, word_count, ActivationSteeringConfig, Dimensions, InferenceConfig,
    InferencePipeline, MetaValue, ModelArchitecture, ProbesConfig,
};
use nodestor_inference::ranking::rank_desc;
use nodestor_inference::speculation::Decoder;
use nodestor_inference::text::{dec_string, to_chars};
use nodestor_inference::tokenizer::{split_merge, TokenizerManager};
use nodestor_inference::trainer::{read_jsonl_dataset, GradientAction, GradientSchedule};
use nodestor_inference::weight_store::{TensorDtype, TensorInfo};

const WORDS: &str = "{
    \"version\": \"1.0\",
    \"truncation\": null,
    \"padding\": null,
    \"added_tokens\": [
        {
            \"id\": 0,
            \"content\": \"<unk>\",
            \"single_word\": false,
            \"lstrip\": false,
            \"rstrip\": false,
            \"normalized\": false,
            \"special\": true
        }
    ],
    \"normalizer\": null,
    \"pre_tokenizer\": {\"type\": \"Whitespace\"},
    \"post_processor\": null,
    \"decoder\": null,
    \"model\": {
        \"type\": \"WordLevel\",
        \"vocab\": {
            \"<unk>\": 0,
            \"Hello\": 1,
            \"World\": 2
        },
        \"unk_token\": \"<unk>\"
    }
}";

fn strings(v: &[&str]) -> Vec<String> {
    v.iter().map(|s| s.to_string()).collect()
}

// ─── Tokenizers ──────────────────────────────────────────────────────────────

#[test]
fn test_dummy_tokenizer_flow() {
    let manager = TokenizerManager::from_string(WORDS).ok().unwrap();
    let ids = manager.encode("Hello World").ok().unwrap();
    assert_eq!(ids, vec![1, 2]);
    let ids_unk = manager.encode("Hello Unknown").ok().unwrap();
    assert_eq!(ids_unk[0], 1);
    assert_eq!(ids_unk[1], 0);
    let text = manager.decode(&ids, false).ok().unwrap();
    assert!(text.contains("Hello"));
    assert!(text.contains("World"));
    assert_eq!(manager.encode_checked("Hello World").unwrap().ok().unwrap(), vec![1, 2]);
}

#[test]
fn test_invalid_json_errors() {
    let result = TokenizerManager::from_string("{ \"broken\": json ");
    assert!(result.is_err());
    assert!(!result.err().unwrap().message().is_empty());
}

#[test]
fn test_empty_string_encode() {
    let json = "{
        \"version\": \"1.0\",
        \"model\": { \"type\": \"WordLevel\", \"vocab\": {\"<unk>\": 0}, \"unk_token\": \"<unk>\" }
    }";
    let manager = TokenizerManager::from_string(json).ok().unwrap();
    let ids = manager.encode("").ok().unwrap();
    assert_eq!(ids.len(), 0);
}

fn described(part: &str) -> Option<bool> {
    let json = format!(
        "{{\"version\":\"1.0\",{}\"model\":{{\"type\":\"WordLevel\",\"vocab\":{{\"<unk>\":0,\"a\":1}},\"unk_token\":\"<unk>\"}}}}",
        part
    );
    TokenizerManager::from_string_checked(&json).map(|r| r.is_ok())
}

#[test]
fn descriptions_that_cannot_be_treated_are_left_out() {
    assert_eq!(described(""), Some(true));
    assert_eq!(described("\"normalizer\":{\"type\":\"Lowercase\"},"), Some(true));
    assert_eq!(
        described("\"normalizer\":{\"type\":\"Precompiled\",\"precompiled_charsmap\":\"\"},"),
        None
    );
    assert_eq!(
        described("\"normalizer\":{\"type\":\"Sequence\",\"normalizers\":[{\"type\":\"Precompiled\",\"precompiled_charsmap\":\"\"}]},"),
        None
    );
    let template = |single: &str| {
        format!(
            "\"post_processor\":{{\"type\":\"TemplateProcessing\",\"single\":[{}],\"pair\":[{{\"Sequence\":{{\"id\":\"A\",\"type_id\":0}}}},{{\"Sequence\":{{\"id\":\"B\",\"type_id\":0}}}}],\"special_tokens\":{{}}}},",
            single
        )
    };
    let whole = "{\"Sequence\":{\"id\":\"A\",\"type_id\":0}}";
    assert_eq!(described(&template(whole)), Some(true));
    assert_eq!(described(&template(&format!("{},{}", whole, whole))), None);
    assert_eq!(described(&template("")), None);
    assert_eq!(
        described("\"padding\":{\"strategy\":{\"Fixed\":4000000000},\"direction\":\"Right\",\"pad_to_multiple_of\":null,\"pad_id\":0,\"pad_type_id\":0,\"pad_token\":\"a\"},"),
        None
    );
    assert_eq!(described("\"\\u0061\":0,"), None);
}

#[test]
fn only_known_kinds_of_steps_are_read() {
    let normalizer = |n: &str| described(&format!("\"normalizer\":{},", n));
    assert_eq!(normalizer("null"), Some(true));
    assert_eq!(normalizer("{\"type\":\"NFC\"}"), Some(true));
    assert_eq!(normalizer("{\"type\":\"Strip\",\"strip_left\":true,\"strip_right\":true}"), Some(true));
    assert_eq!(normalizer("{\"type\":\"Prepend\",\"prepend\":\"_\"}"), Some(true));
    assert_eq!(normalizer("{\"type\":\"Prepend\",\"prepend\":\"\"}"), None);
    assert_eq!(
        normalizer("{\"type\":\"Sequence\",\"normalizers\":[{\"type\":\"Prepend\",\"prepend\":\"\"},{\"type\":\"Lowercase\"}]}"),
        None
    );
    let replace = |pattern: &str, content: &str| {
        normalizer(&format!(
            "{{\"type\":\"Replace\",\"pattern\":{{{}}},\"content\":\"{}\"}}",
            pattern, content
        ))
    };
    assert_eq!(replace("\"String\":\" \"", "▁"), Some(true));
    assert_eq!(replace("\"String\":\"\"", ""), None);
    assert_eq!(replace("\"String\":\"a\"", "aa"), None);
    assert_eq!(replace("\"Regex\":\"x*\"", "y"), None);
    assert_eq!(normalizer("{\"type\":\"Other\"}"), None);
    assert_eq!(normalizer("[\"NFC\"]"), None);
    let nine = vec!["{\"type\":\"NFC\"}"; 9].join(",");
    assert_eq!(normalizer(&format!("{{\"type\":\"Sequence\",\"normalizers\":[{}]}}", nine)), None);
    let splitter = |s: &str| described(&format!("\"pre_tokenizer\":{},", s));
    assert_eq!(splitter("{\"type\":\"Whitespace\"}"), Some(true));
    assert_eq!(splitter("{\"type\":\"UnicodeScripts\"}"), None);
    let split = |p: &str| {
        splitter(&format!(
            "{{\"type\":\"Split\",\"pattern\":{{{}}},\"behavior\":\"Isolated\",\"invert\":false}}",
            p
        ))
    };
    assert_eq!(split("\"String\":\" \""), Some(true));
    assert_eq!(split("\"Regex\":\"(?=ab\\\\K)\""), None);
    let decoder = |d: &str| described(&format!("\"decoder\":{},", d));
    assert_eq!(decoder("{\"type\":\"Fuse\"}"), Some(true));
    assert_eq!(
        decoder("{\"type\":\"Replace\",\"pattern\":{\"Regex\":\"a\"},\"content\":\"\"}"),
        None
    );
    let cut = |stride: u32| {
        described(&format!(
            "\"truncation\":{{\"direction\":\"Right\",\"max_length\":4,\"strategy\":\"LongestFirst\",\"stride\":{}}},",
            stride
        ))
    };
    assert_eq!(cut(0), Some(true));
    assert_eq!(cut(1), None);
    assert_eq!(described("\"normalizer\":null,\"normalizer\":{\"type\":\"NFC\"},"), None);
    let unigram = "{\"version\":\"1.0\",\"model\":{\"type\":\"Unigram\",\"unk_id\":0,\"vocab\":[[\"a\",0.0]]}}";
    assert!(TokenizerManager::from_string_checked(unigram).is_none());
}

#[test]
fn added_tokens_strip_one_side_at_most() {
    let with = |marks: &[(&str, bool, bool, bool)], normalizer: &str| {
        let tokens: Vec<String> = marks
            .iter()
            .map(|(content, lstrip, rstrip, normalized)| {
                format!(
                    "{{\"id\":9,\"content\":\"{}\",\"single_word\":false,\"lstrip\":{},\"rstrip\":{},\"normalized\":{},\"special\":false}}",
                    content, lstrip, rstrip, normalized
                )
            })
            .collect();
        described(&format!(
            "\"added_tokens\":[{}],\"normalizer\":{},",
            tokens.join(","),
            normalizer
        ))
    };
    let (left, right) = ((" ", true, false, false), ("<a>", false, true, false));
    assert_eq!(with(&[left], "null"), Some(true));
    assert_eq!(with(&[right], "null"), Some(true));
    assert_eq!(with(&[left, right], "null"), None);
    let inside = ("b", false, false, true);
    assert_eq!(with(&[inside], "{\"type\":\"Lowercase\"}"), Some(true));
    assert_eq!(with(&[inside], "{\"type\":\"StripAccents\"}"), None);
    assert_eq!(with(&[left], "{\"type\":\"StripAccents\"}"), Some(true));
}

#[test]
fn common_descriptions_are_read_and_used() {
    let bpe = "{\"version\":\"1.0\",\"normalizer\":{\"type\":\"Sequence\",\"normalizers\":[{\"type\":\"Prepend\",\"prepend\":\"▁\"},{\"type\":\"Replace\",\"pattern\":{\"String\":\" \"},\"content\":\"▁\"}]},\"model\":{\"type\":\"BPE\",\"unk_token\":\"<u>\",\"byte_fallback\":false,\"vocab\":{\"<u>\":0,\"▁\":1,\"a\":2,\"b\":3,\"▁a\":4},\"merges\":[\"▁ a\"]}}";
    let t = TokenizerManager::from_string_checked(bpe).unwrap().ok().unwrap();
    assert_eq!(t.encode_checked("a ab").unwrap().ok().unwrap(), vec![4, 4, 3]);
    let split = "(?i:'s|'t|'re|'ve|'m|'ll|'d)|[^\\\\r\\\\n\\\\p{L}\\\\p{N}]?\\\\p{L}+|\\\\p{N}| ?[^\\\\s\\\\p{L}\\\\p{N}]+[\\\\r\\\\n]*|\\\\s*[\\\\r\\\\n]+|\\\\s+(?!\\\\S)|\\\\s+";
    let byte_level = format!(
        "{{\"version\":\"1.0\",\"normalizer\":{{\"type\":\"NFC\"}},\"pre_tokenizer\":{{\"type\":\"Sequence\",\"pretokenizers\":[{{\"type\":\"Split\",\"pattern\":{{\"Regex\":\"{}\"}},\"behavior\":\"Isolated\",\"invert\":false}},{{\"type\":\"ByteLevel\",\"add_prefix_space\":false,\"trim_offsets\":false,\"use_regex\":false}}]}},\"model\":{{\"type\":\"BPE\",\"vocab\":{{\"a\":0,\"Ġ\":1,\"Ġa\":2,\"1\":3}},\"merges\":[\"Ġ a\"]}}}}",
        split
    );
    let t = TokenizerManager::from_string_checked(&byte_level).unwrap().ok().unwrap();
    assert_eq!(t.encode_checked("a a11").unwrap().ok().unwrap(), vec![0, 2, 3, 3]);
    let bert = "{\"version\":\"1.0\",\"normalizer\":{\"type\":\"BertNormalizer\",\"clean_text\":true,\"handle_chinese_chars\":true,\"strip_accents\":null,\"lowercase\":true},\"pre_tokenizer\":{\"type\":\"BertPreTokenizer\"},\"model\":{\"type\":\"WordPiece\",\"unk_token\":\"[U]\",\"continuing_subword_prefix\":\"##\",\"max_input_chars_per_word\":100,\"vocab\":{\"[U]\":0,\"ca\":1,\"##fe\":2,\"中\":3}}}";
    let t = TokenizerManager::from_string_checked(bert).unwrap().ok().unwrap();
    assert_eq!(t.encode_checked("CAFÉ中x").unwrap().ok().unwrap(), vec![1, 2, 3, 0]);
}

#[test]
fn layers_that_cannot_be_counted_are_told() {
    assert!(can_count_layers(&vec![tensor("blk.7.x")]));
    assert!(!can_count_layers(&vec![tensor(&format!("blk.{}.x", usize::MAX))]));
}

#[test]
fn added_tokens_with_huge_numbers_are_left_out() {
    let words = |id: &str| {
        let token = |id: &str, content: &str| {
            format!(
                "{{\"id\":{},\"content\":\"{}\",\"single_word\":false,\"lstrip\":false,\"rstrip\":false,\"normalized\":false,\"special\":true}}",
                id, content
            )
        };
        let json = format!(
            "{{\"version\":\"1.0\",\"added_tokens\":[{},{}],\"model\":{{\"type\":\"WordLevel\",\"vocab\":{{\"a\":{}}},\"unk_token\":\"a\"}}}}",
            token(id, "a"),
            token("7", "b"),
            id
        );
        TokenizerManager::from_string_checked(&json).is_some()
    };
    assert!(words("6"));
    assert!(!words("4294967295"));
}

#[test]
fn merges_with_a_prefix_are_left_out() {
    let bpe = |prefix: &str| {
        let json = format!(
            "{{\"version\":\"1.0\",\"model\":{{\"type\":\"BPE\",\"continuing_subword_prefix\":{},\"vocab\":{{\"a\":0,\"b\":1,\"ab\":2}},\"merges\":[\"a b\"]}}}}",
            prefix
        );
        TokenizerManager::from_string_checked(&json).map(|r| r.is_ok())
    };
    assert_eq!(bpe("null"), Some(true));
    assert_eq!(bpe("\"\""), Some(true));
    assert_eq!(bpe("\"##\""), None);
}

#[test]
fn broken_descriptions_are_errors_not_left_out() {
    let broken = TokenizerManager::from_string_checked("{ \"broken\": json ");
    assert!(broken.unwrap().is_err());
    assert!(TokenizerManager::from_string_checked("{}").unwrap().is_err());
    assert!(TokenizerManager::from_string_checked("[1]").unwrap().is_err());
    let unknown = "{\"version\":\"1.0\",\"model\":{\"type\":\"None\",\"vocab\":{}}}";
    assert!(TokenizerManager::from_string_checked(unknown).unwrap().is_err());
    let words = TokenizerManager::from_string_checked(WORDS).unwrap().ok().unwrap();
    assert_eq!(words.encode("Hello").ok().unwrap(), vec![1]);
}

#[test]
fn vocabularies_become_byte_level_tokenizers() {
    let tokens = strings(&["a", "b", "ab", "Ġ", "Ġab", "<s>"]);
    let merges = strings(&["a b", "Ġ ab", "nospace"]);
    let m = TokenizerManager::from_gguf(&tokens, &merges, Some(5), None, Some(99)).ok().unwrap();
    assert_eq!(m.encode("ab ab").ok().unwrap(), vec![2, 4]);
    assert_eq!(m.decode(&[2, 4], false).ok().unwrap(), "ab ab");
    assert_eq!(m.encode("<s>ab").ok().unwrap(), vec![5, 2]);
    assert_eq!(m.decode(&[5, 2], true).ok().unwrap(), "ab");
    assert_eq!(m.decode(&[5, 2], false).ok().unwrap(), "<s>ab");
}

#[test]
fn vocabularies_that_do_not_fit_are_refused() {
    let none = TokenizerManager::from_gguf(&vec![], &vec![], None, None, None);
    assert_eq!(none.err().unwrap().message(), "GGUF sem vocab de tokenizer");
    let bad = TokenizerManager::from_gguf(
        &strings(&["a", "b"]),
        &strings(&["a b"]),
        None,
        None,
        None,
    );
    assert_eq!(bad.err().unwrap().message(), "BPE build: Token `ab` out of vocabulary");
    let missing = TokenizerManager::from_gguf(
        &strings(&["a", "b"]),
        &strings(&["a x"]),
        None,
        None,
        None,
    );
    assert_eq!(missing.err().unwrap().message(), "BPE build: Token `x` out of vocabulary");
}

#[test]
fn merges_are_cut_at_their_first_space() {
    assert_eq!(split_merge("a b c"), Some(("a".to_string(), "b c".to_string())));
    assert_eq!(split_merge(" x"), Some(("".to_string(), "x".to_string())));
    assert_eq!(split_merge("abc"), None);
}

#[test]
fn empty_texts_are_spelt_by_the_vocabulary() {
    let tokens = strings(&["<s>", "Ġhi", "▁you", "<0x41>", "<0xFF>", "<0xzz>", "<0x+42>"]);
    let m = TokenizerManager::from_gguf(&tokens, &vec![], None, None, None).ok().unwrap();
    let all = [0, 1, 2, 3, 4, 5, 6, 77];
    assert_eq!(m.finish_decode(None, &all, false), "<s> hi youA<0xzz>B");
    assert_eq!(m.finish_decode(Some(String::new()), &all, true), " hi you");
    assert_eq!(m.finish_decode(Some("x".to_string()), &all, true), "x");
    let plain = TokenizerManager::from_string(WORDS).ok().unwrap();
    assert_eq!(plain.finish_decode(None, &[1], false), "");
}

#[test]
fn cuts_that_overlap_too_much_are_not_encoded() {
    let json = WORDS.replace(
        "\"truncation\": null",
        "\"truncation\": {\"direction\":\"Right\",\"max_length\":2,\"strategy\":\"LongestFirst\",\"stride\":2}",
    );
    let m = TokenizerManager::from_string(&json).ok().unwrap();
    assert!(m.encode_checked("Hello World Hello World").is_none());
    let good = json.replace("\"stride\":2", "\"stride\":1");
    let m = TokenizerManager::from_string(&good).ok().unwrap();
    let ids = m.encode_checked("Hello World Hello World").unwrap().ok().unwrap();
    assert_eq!(ids, vec![1, 2]);
}

fn with_decoder(decoder: &str) -> TokenizerManager {
    let json = WORDS.replace("\"decoder\": null", &format!("\"decoder\": {}", decoder));
    assert_ne!(json, WORDS);
    TokenizerManager::from_string(&json).ok().unwrap()
}

#[test]
fn decoders_that_may_fail_are_not_used() {
    let text = |m: &TokenizerManager| m.decode_checked(&[1, 2], false).map(|r| r.ok().unwrap());
    let fuse = "{\"type\": \"Fuse\"}";
    let front = "{\"type\": \"Strip\", \"content\": \"H\", \"start\": 1, \"stop\": 0}";
    let back = "{\"type\": \"Strip\", \"content\": \"o\", \"start\": 0, \"stop\": 1}";
    let ends = "{\"type\": \"BPEDecoder\", \"suffix\": \"</w>\"}";
    let both = |a: &str, b: &str| {
        format!("{{\"type\": \"Sequence\", \"decoders\": [{}, {}]}}", a, b)
    };
    assert_eq!(text(&with_decoder(fuse)), Some("HelloWorld".to_string()));
    assert_eq!(text(&with_decoder(&both(fuse, front))), Some("elloWorld".to_string()));
    assert_eq!(text(&with_decoder(back)), None);
    assert_eq!(text(&with_decoder(ends)), None);
    assert_eq!(text(&with_decoder(&both(fuse, back))), None);
    let plain = TokenizerManager::from_string(WORDS).ok().unwrap();
    assert_eq!(text(&plain), Some("Hello World".to_string()));
}

// ─── The pipeline ────────────────────────────────────────────────────────────

fn tensor(name: &str) -> TensorInfo {
    TensorInfo {
        name: name.to_string(),
        shape: vec![2, 2],
        dtype: TensorDtype::F32,
        data_offset: 0,
        data_size: 16,
    }
}

fn number(n: u64) -> MetaValue {
    MetaValue::Number { unsigned: Some(n), float: (n as f32).to_bits() }
}

fn list(v: &[&str]) -> MetaValue {
    MetaValue::List(v.iter().map(|s| MetaValue::Text(s.to_string())).collect())
}

fn config() -> InferenceConfig {
    InferenceConfig { model_path: "m.gguf".to_string(), prefetch_depth: 2, buffer_size: 64 }
}

fn dims() -> Dimensions {
    Dimensions {
        num_layers: 2,
        vocab_size: 3,
        hidden_size: 8,
        num_heads: 2,
        num_kv_heads: 1,
        intermediate_size: 16,
        rope_base: 10000.0f32.to_bits(),
    }
}

#[test]
fn pipelines_begin_with_their_defaults() {
    let tensors = vec![tensor("blk.0.attn_q.weight"), tensor("blk.11.attn_q.weight")];
    let p = InferencePipeline::init(
        config(),
        "/home/x",
        tensors,
        NamedMap::new(),
        ModelArchitecture::Other,
        vec![],
        true,
    );
    assert_eq!(p.config.model_path, "/home/x/.nodestor/models/m.gguf");
    assert_eq!(p.db_path, "/home/x/.nodestor/models/m.gguf/vector_db");
    assert_eq!(p.n_layers, 12);
    assert_eq!(p.kv_paginator.vram_capacity_tokens, 32768);
    assert!(p.kv_paginator.ssd_offload_enabled);
    assert_eq!(p.weight_bank.get("blk.0.attn_q.weight").unwrap().len(), 16);
    assert!(p.gpu_weight_bank.get("blk.0.attn_q.weight").is_none());
    assert_eq!(p.model_dims(), (4096, 32000));
    assert!(p.device_bank().get("blk.0.attn_q.weight").is_some());
    assert_eq!(p.load_context_from_ssd(0), vec![0u8; 1024]);
    assert_eq!(f32::from_bits(p.probes_config.sae_threshold), 0.5);
    let mut on_gpu = NamedMap::new();
    on_gpu.insert("blk.3.attn_q.weight".to_string(), true);
    on_gpu.insert("blk.4.attn_q.weight".to_string(), false);
    on_gpu.insert("blk.10.attn_q.weight".to_string(), true);
    assert_eq!(p.evict_gpu_resident_cpu_weights(&on_gpu), vec![3, 10]);
}

#[test]
fn the_shape_of_the_model_follows_its_metadata() {
    let mut extra = NamedMap::new();
    extra.insert("tokenizer.ggml.tokens".to_string(), list(&["a", "b", "ab", "c"]));
    extra.insert("tokenizer.ggml.merges".to_string(), list(&["a b"]));
    extra.insert("tokenizer.ggml.eos_token_id".to_string(), number(3));
    extra.insert(
        "llama.attention.layer_norm_rms_epsilon".to_string(),
        MetaValue::Number { unsigned: None, float: 1e-6f32.to_bits() },
    );
    let mut p = InferencePipeline::init(
        config(),
        "/home/x",
        vec![],
        extra,
        ModelArchitecture::Llama(dims()),
        vec![],
        false,
    );
    assert_eq!(p.n_layers, 32);
    assert_eq!(p.eos_token(), Some(3));
    let c = p.generation_config();
    assert_eq!(c.vocab, 4);
    assert_eq!(c.head_dim, 4);
    assert_eq!(f32::from_bits(c.eps), 1e-6);
    assert!(c.moe.is_none());
    let calib = p.build_calib_context().ok().unwrap();
    assert_eq!(calib.cpu_cfg.vocab, 3);
    assert_eq!(calib.tokenizer.encode("ab").ok().unwrap(), vec![2]);
    assert_eq!(p.model_dims(), (8, 3));
    let t = generation_tokenizer(&p.extra).ok().unwrap();
    assert_eq!(t.encode("abc").ok().unwrap(), vec![2, 3]);
    p.submit_request(InferenceRequest { session_id: 1, token_ids: vec![1], is_prefill: true });
    assert_eq!(p.scheduler.queue.len(), 1);
    let p = p
        .with_probes(ProbesConfig { enabled: false, ..ProbesConfig::default() })
        .with_steering(ActivationSteeringConfig { direction: vec![1], intensity: 2 });
    assert!(!p.probes_config.enabled);
    assert_eq!(p.steering.unwrap().direction, vec![1]);
}

#[test]
fn models_without_a_vocabulary_use_plain_words() {
    let t = generation_tokenizer(&NamedMap::new()).ok().unwrap();
    assert_eq!(t.encode("Hello World").ok().unwrap(), vec![1, 2]);
    let mut broken = NamedMap::new();
    broken.insert("tokenizer.ggml.tokens".to_string(), list(&["a"]));
    broken.insert("tokenizer.ggml.merges".to_string(), list(&["a z"]));
    let t = generation_tokenizer(&broken).ok().unwrap();
    assert_eq!(t.encode("World").ok().unwrap(), vec![2]);
    assert_eq!(f32::from_bits(rms_eps(&NamedMap::new())), 1e-5);
    let mut none = dims();
    none.num_heads = 0;
    assert_eq!(head_dim(&none), 64);
    assert_eq!(ModelArchitecture::Other.dimensions().intermediate_size, 11008);
}

#[test]
fn layers_are_counted_by_name() {
    let count = |names: &[&str]| count_layers(&names.iter().map(|n| tensor(n)).collect());
    assert_eq!(count(&["output.weight"]), 32);
    assert_eq!(count(&["blk.7.x", "blk.3.y", "blk.x.z", "blk.9"]), 8);
    assert_eq!(count(&["blk.+4.x", "blk..x", "blk.99999999999999999999.x"]), 5);
}

#[test]
fn prompts_carry_what_was_found() {
    assert_eq!(effective_prompt(&vec![], "q"), "q");
    assert_eq!(
        effective_prompt(&vec![Some("a".to_string()), None, Some("b".to_string())], "q"),
        "[Contexto]\na\nb\n\n[Pergunta]\nq"
    );
    assert_eq!(prompt_tokens(None), vec![0]);
    assert_eq!(prompt_tokens(Some(vec![])), vec![0]);
    assert_eq!(prompt_tokens(Some(vec![5, 6])), vec![5, 6]);
    for s in ["", " ", "a", " a  b\tc\n", "ção é"] {
        assert_eq!(word_count(s), s.split_whitespace().count());
    }
    assert_eq!(context_id(96, " text "), Some("ctx_96".to_string()));
    assert_eq!(context_id(96, " \n"), None);
}

#[test]
fn results_are_reported() {
    assert_eq!(
        generated_text(&vec![], "p", Some("x".to_string())),
        "(Sem tokens gerados para o prompt: p)"
    );
    assert_eq!(generated_text(&vec![1], "p", Some("x".to_string())), "x");
    assert_eq!(generated_text(&vec![1], "p", None), "Decode ERROR");
    let d = Decoder::new(vec![1, 2, 3], 5, None, None);
    let s = generation_stats("two words", &d, 12, 3, 4);
    assert_eq!(s.prompt_tokens, 2);
    assert_eq!(s.generated_tokens, 0);
    assert_eq!(s.context_tokens, 3);
    assert_eq!(s.spec_k, 4);
    assert_eq!(s.total_time_ms, 12);
    assert!(device_stays(true, true));
    assert!(!device_stays(true, false));
    assert!(enough_samples(2, 2));
    assert!(!enough_samples(2, 1));
    assert_eq!(positive_texts().len(), 6);
    assert_eq!(negative_texts()[0], "I cannot provide that information.");
}

// ─── Training ────────────────────────────────────────────────────────────────

#[test]
fn test_jsonl_reader_sft_format() {
    let lines = strings(&[
        "{\"input\": \"Olá\", \"output\": \"Mundo\"}",
        "{\"prompt\": \"2+2\", \"completion\": \"4\"}",
        "{\"text\": \"auto\"}",
    ]);
    let samples = read_jsonl_dataset(&lines, "d.jsonl").ok().unwrap();
    assert_eq!(samples.len(), 3);
    assert_eq!(samples[0].input, "Olá");
    assert_eq!(samples[0].output, "Mundo");
    assert_eq!(samples[1].input, "2+2");
    assert_eq!(samples[2].input, "auto");
    assert_eq!(samples[2].output, "auto");
}

#[test]
fn test_jsonl_reader_empty_file_returns_error() {
    let result = read_jsonl_dataset(&strings(&["# comentário", ""]), "d.jsonl");
    assert_eq!(
        result.err().unwrap().message(),
        "Dataset 'd.jsonl' está vazio ou não contém amostras válidas"
    );
}

#[test]
fn bad_lines_are_named() {
    let json = read_jsonl_dataset(&strings(&["", "{\"text\": \"a\"}", "{oops"]), "d");
    let m = json.err().unwrap().message();
    assert!(m.starts_with("JSON inválido na linha 3: "));
    let format = read_jsonl_dataset(&strings(&["{\"input\": \"a\", \"text\": 5}"]), "d");
    assert_eq!(
        format.err().unwrap().message(),
        "Linha 1: formato não reconhecido (esperado: input/output, prompt/completion, ou text)"
    );
    let list = read_jsonl_dataset(&strings(&["[1]"]), "d");
    assert!(list.is_err());
}

#[test]
fn gradients_are_applied_every_few_samples() {
    let mut s = GradientSchedule::new(2);
    assert_eq!(s.count(), GradientAction::Accumulate);
    assert_eq!(s.count(), GradientAction::Apply { samples: 2 });
    assert_eq!(s.step, 1);
    assert_eq!(s.accum_count, 0);
    assert!(GradientSchedule::accepts(1, 4, 3));
    assert!(!GradientSchedule::accepts(0, 4, 3));
    assert!(!GradientSchedule::accepts(1, 4, 4));
}

// ─── Numbers ─────────────────────────────────────────────────────────────────

#[test]
fn bit_patterns_are_compared_as_numbers() {
    let values = [f32::NEG_INFINITY, -2.5, -1e-40, -0.0, 0.0, 1e-40, 0.3, 7.0, f32::INFINITY];
    for a in values.iter().chain([f32::NAN].iter()) {
        for b in values.iter().chain([f32::NAN].iter()) {
            assert_eq!(check_lt(a.to_bits(), b.to_bits()), a < b);
            assert_eq!(check_ge(a.to_bits(), b.to_bits()), a >= b);
        }
        assert_eq!(abs_of(a.to_bits()), a.abs().to_bits());
    }
}

#[test]
fn rankings_descend_and_keep_the_order_of_equals() {
    assert_eq!(rank_desc(&vec![3, 9, -1, 9, 3]), vec![1, 3, 0, 4, 2]);
    assert!(rank_desc(&vec![]).is_empty());
}

#[test]
fn decimal_numerals_are_read_back() {
    for n in [0, 7, 10, 4_294_967_295, u64::MAX] {
        let v = to_chars(&dec_string(n));
        assert_eq!(parse_number(&v, 0, v.len(), u64::MAX), Some(n));
    }
    let over = to_chars("18446744073709551616");
    assert_eq!(parse_number(&over, 0, over.len(), u64::MAX), None);
    assert_eq!(parse_number(&over, 3, 3, u64::MAX), None);
}
