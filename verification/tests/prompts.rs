use nodestor_inference::paths;
use nodestor_inference::platform_io;
use nodestor_inference::system_prompt_builder::{
    current_date, default_prompt_path, is_leap_year, resolve_prompt_path, unix_to_date, PromptSection, PromptTemplate,
    SystemPrompt,
};
use nodestor_inference::tool_registry::{ToolDef, ToolKit, ToolRegistry, ToolResult};

const HOME: &str = "/home/someone";

type Plain = fn(&str) -> String;

// ─── System prompts ──────────────────────────────────────────────────────────

#[test]
fn test_compile_with_tags() {
    let mut sp = SystemPrompt::new("test", "desc", "test");
    sp.upsert_section(PromptSection::new("s1", "my_tag", "Title", "Hello world", 100));
    let compiled = sp.compile();
    assert!(compiled.contains("<my_tag>"));
    assert!(compiled.contains("Hello world"));
    assert!(compiled.contains("</my_tag>"));
    assert_eq!(compiled, "<my_tag>\n\nHello world\n\n</my_tag>");
}

#[test]
fn test_compile_without_tag() {
    let mut sp = SystemPrompt::new("test", "desc", "test");
    sp.upsert_section(PromptSection::new("s1", "", "Title", "Raw content", 100));
    let compiled = sp.compile();
    assert_eq!(compiled.trim(), "Raw content");
}

#[test]
fn test_priority_ordering() {
    let mut sp = SystemPrompt::new("test", "desc", "test");
    sp.upsert_section(PromptSection::new("low", "", "Low", "LAST", 10));
    sp.upsert_section(PromptSection::new("high", "", "High", "FIRST", 100));
    let compiled = sp.compile();
    let first_pos = compiled.find("FIRST").unwrap();
    let last_pos = compiled.find("LAST").unwrap();
    assert!(first_pos < last_pos);
    let sorted = sp.sections_sorted();
    assert_eq!(sorted[0].id, "high");
    assert_eq!(sorted[1].id, "low");
}

#[test]
fn test_disabled_section_excluded() {
    let mut sp = SystemPrompt::new("test", "desc", "test");
    sp.upsert_section(PromptSection::new("enabled", "", "E", "VISIBLE", 100));
    let mut hidden = PromptSection::new("disabled", "", "D", "HIDDEN", 90);
    hidden.enabled = false;
    sp.upsert_section(hidden);
    let compiled = sp.compile();
    assert!(compiled.contains("VISIBLE"));
    assert!(!compiled.contains("HIDDEN"));
    assert_eq!(sp.section_stats(), (1, 2));
}

#[test]
fn test_token_budget_injected() {
    let mut sp = SystemPrompt::new("test", "desc", "test");
    sp.meta.token_budget = Some(50_000);
    let compiled = sp.compile();
    assert!(compiled.contains("<budget:token_budget>"));
    assert!(compiled.contains("50000"));
}

#[test]
fn test_upsert_replaces_existing_section() {
    let mut sp = SystemPrompt::new("test", "desc", "test");
    sp.upsert_section(PromptSection::new("identity", "tag", "T", "Original", 100));
    sp.upsert_section(PromptSection::new("identity", "tag", "T", "Updated", 100));
    assert_eq!(sp.sections.len(), 1);
    assert_eq!(sp.sections[0].content, "Updated");
    assert_eq!(sp.get_section("identity").unwrap().content, "Updated");
}

#[test]
fn test_toggle_section() {
    let mut sp = SystemPrompt::new("test", "desc", "test");
    sp.upsert_section(PromptSection::new("id", "tag", "T", "C", 100));
    assert!(sp.toggle_section("id", false));
    assert!(!sp.sections[0].enabled);
    assert!(sp.toggle_section("id", true));
    assert!(sp.sections[0].enabled);
    assert!(!sp.toggle_section("nonexistent", true));
}

#[test]
fn removed_sections_are_gone() {
    let mut sp = SystemPrompt::new("test", "desc", "test");
    sp.upsert_section(PromptSection::new("a", "", "A", "one", 1));
    sp.upsert_section(PromptSection::new("b", "", "B", "two", 2));
    assert!(sp.remove_section("a"));
    assert!(!sp.remove_section("a"));
    assert!(sp.get_section("a").is_none());
    assert_eq!(sp.compile(), "two");
    sp.get_section_mut("b").unwrap().content = "three".to_string();
    assert_eq!(sp.compile(), "three");
    assert_eq!(sp.estimated_tokens(), 1);
}

#[test]
fn equal_priorities_keep_their_order() {
    let mut sp = SystemPrompt::new("test", "desc", "test");
    for id in ["a", "b", "c"] {
        sp.upsert_section(PromptSection::new(id, "", "", id, 5));
    }
    assert_eq!(sp.compile(), "a\n\nb\n\nc");
}

#[test]
fn test_enterprise_template_has_seven_sections() {
    let sp = PromptTemplate::Enterprise.build(Some("ACME Corp"));
    assert_eq!(sp.sections.len(), 7);
    assert!(sp.meta.token_budget.is_some());
    let compiled = sp.compile();
    assert!(compiled.contains("ACME Corp"));
    assert!(compiled.contains("<ai_identity>"));
    assert!(compiled.contains("<refusal_policy>"));
    assert_eq!(sp.name, "ACME Corp — Assistente Enterprise");
    assert_eq!(sp.meta.target_model, "sonnet-4-6");
}

#[test]
fn test_security_template_requires_authorization_section() {
    let sp = PromptTemplate::Security.build(Some("SecCorp"));
    let ids: Vec<&str> = sp.sections.iter().map(|s| s.id.as_str()).collect();
    assert!(ids.contains(&"authorization"));
    let compiled = sp.compile();
    assert!(compiled.contains("<authorization_context>"));
}

#[test]
fn templates_are_found_by_name_in_any_case() {
    assert_eq!(PromptTemplate::from_str("Enterprise"), Some(PromptTemplate::Enterprise));
    assert_eq!(PromptTemplate::from_str("TECH"), Some(PromptTemplate::Technical));
    assert_eq!(PromptTemplate::from_str("cs"), Some(PromptTemplate::CustomerSupport));
    assert_eq!(PromptTemplate::from_str("Elite"), Some(PromptTemplate::Fable5Level));
    assert_eq!(PromptTemplate::from_str("other"), None);
    assert_eq!(PromptTemplate::from_lower_case("TECH"), None);
    let names = PromptTemplate::all_names();
    assert_eq!(names.len(), 7);
    for (name, _) in names {
        assert!(PromptTemplate::from_str(name).is_some());
    }
}

#[test]
fn the_universal_template_names_the_company_only_if_it_is_known() {
    let plain = PromptTemplate::Fable5Level.build(None);
    assert_eq!(plain.sections.len(), 8);
    assert_eq!(plain.name, "Nível Fable 5 — — Inteligência de Elite");
    assert!(plain.sections[0].content.contains("de elite — dotado"));
    let known = PromptTemplate::Fable5Level.build(Some("ACME"));
    assert_eq!(known.name, "Nível Fable 5 (ACME) — — Inteligência de Elite");
    assert!(known.sections[0].content.contains("de elite de ACME — dotado"));
}

#[test]
fn test_resolve_prompt_path_name_only() {
    let path = resolve_prompt_path("meu_prompt", HOME);
    assert!(path.ends_with("meu_prompt.sp"));
    assert!(path.contains(".nodestor"));
    assert_eq!(path, "/home/someone/.nodestor/prompts/meu_prompt.sp");
}

#[test]
fn test_resolve_prompt_path_explicit_sp() {
    let path = resolve_prompt_path("/tmp/custom.sp", HOME);
    assert_eq!(path, "/tmp/custom.sp");
    assert_eq!(resolve_prompt_path("a\\b", HOME), "a\\b");
    assert_eq!(resolve_prompt_path("x.sp", HOME), "x.sp");
}

#[test]
fn test_date_format() {
    let date = unix_to_date(1_750_000_000);
    assert!(date.len() == 10);
    assert_eq!(date.chars().nth(4).unwrap(), '-');
    assert_eq!(date.chars().nth(7).unwrap(), '-');
    assert_eq!(date, "2025-06-15");
}

#[test]
fn dates_around_leap_days() {
    assert_eq!(unix_to_date(0), "1970-01-01");
    assert_eq!(unix_to_date(951_782_400), "2000-02-29");
    assert_eq!(unix_to_date(951_868_800), "2000-03-01");
    assert_eq!(unix_to_date(1_735_603_200), "2024-12-31");
    assert!(is_leap_year(2000));
    assert!(!is_leap_year(1900));
    assert!(is_leap_year(2024));
    assert!(!is_leap_year(2023));
}

#[test]
fn different_days_have_different_dates() {
    let day = 86_400u64;
    let dates: Vec<String> = (0..800).map(|d| unix_to_date(d * day + 17)).collect();
    for i in 1..dates.len() {
        assert!(dates[i - 1] < dates[i]);
    }
    assert_eq!(unix_to_date(5 * day), unix_to_date(6 * day - 1));
}

#[test]
fn the_date_of_today_is_one() {
    let today = current_date();
    assert_eq!(today.len(), 10);
    assert!(today.as_str() > "2024-01-01");
}

// ─── Paths ───────────────────────────────────────────────────────────────────

#[test]
fn nodestor_home_is_valid_path() {
    let home = paths::nodestor_home(HOME);
    let p = std::path::PathBuf::from(&home);
    assert_eq!(p.file_name().and_then(|n| n.to_str()), Some(".nodestor"));
}

#[test]
fn nodestor_home_uses_pathbuf_not_string_concat() {
    let home = paths::nodestor_home(HOME);
    assert!(!home.contains("//"));
    let expected = std::path::PathBuf::from(HOME).join(".nodestor");
    assert_eq!(std::path::PathBuf::from(&home), expected);
    assert_eq!(paths::nodestor_home("/root/"), "/root/.nodestor");
    assert_eq!(paths::nodestor_home(""), ".nodestor");
}

#[test]
fn directories_stand_in_the_home_directory() {
    assert_eq!(paths::models_dir(HOME), "/home/someone/.nodestor/models");
    assert_eq!(paths::loras_dir(HOME), "/home/someone/.nodestor/loras");
    assert_eq!(paths::prompts_dir(HOME), "/home/someone/.nodestor/prompts");
}

#[test]
fn resolve_model_path_absolute_is_unchanged() {
    let abs = "/models/llama.gguf";
    assert_eq!(paths::resolve_model_path(abs, HOME), abs);
    assert_eq!(paths::resolve_model_path("dir/llama.gguf", HOME), "dir/llama.gguf");
    assert_eq!(paths::resolve_model_path("./llama.gguf", HOME), "./llama.gguf");
    assert_eq!(paths::resolve_model_path("", HOME), "");
}

#[test]
fn resolve_model_path_bare_name_prefixed_with_models_dir() {
    let p = paths::resolve_model_path("model.gguf", HOME);
    assert!(p.contains(".nodestor"));
    assert!(p.ends_with("model.gguf"));
    assert_eq!(p, "/home/someone/.nodestor/models/model.gguf");
}

#[test]
fn bare_names_have_one_component() {
    for s in ["a", "a/", "a/.", ".", "..", "", "/", "/a", "a/b", "./a", "a//b", "a/./b"] {
        let p = std::path::Path::new(s);
        let expected = p.components().count() == 1 && !p.has_root();
        assert_eq!(paths::is_bare_name(s), expected, "{}", s);
    }
}

#[test]
fn nodestor_data_dir_has_nodestor_suffix() {
    assert!(platform_io::nodestor_data_dir(HOME).ends_with(".nodestor"));
}

#[test]
fn models_dir_is_under_data_dir() {
    let data = platform_io::nodestor_data_dir(HOME);
    let models = platform_io::models_dir(HOME);
    assert!(models.starts_with(&data));
    assert!(models.ends_with("models"));
}

#[test]
fn loras_dir_is_under_data_dir() {
    let data = platform_io::nodestor_data_dir(HOME);
    let loras = platform_io::loras_dir(HOME);
    assert!(loras.starts_with(&data));
    assert!(loras.ends_with("loras"));
    assert!(platform_io::prompts_dir(HOME).ends_with("prompts"));
    assert!(platform_io::cache_dir(HOME).ends_with("cache"));
}

#[test]
fn platform_reader_reads_correct_range() {
    let data: Vec<u8> = (0u8..=255).collect();
    let result = platform_io::read_range_sync(&data, 10, 20).expect("within the file");
    assert_eq!(result.len(), 20);
    assert_eq!(result[0], 10);
    assert_eq!(result[19], 29);
}

#[test]
fn platform_reader_rejects_out_of_bounds() {
    let data = vec![0u8; 100];
    let past = platform_io::read_range_sync(&data, 90, 20);
    assert_eq!(past, Err(platform_io::RangeError::PastEnd));
    assert_eq!(past.err().unwrap().message(), "read past end of file");
    let over = platform_io::read_range_sync(&data, u64::MAX, 20);
    assert_eq!(over, Err(platform_io::RangeError::Overflow));
    assert_eq!(over.err().unwrap().message(), "range overflow");
}

// ─── Tools ───────────────────────────────────────────────────────────────────

#[test]
fn test_scan_for_call_valid() {
    let text = "Preciso verificar: <call_vector_db>RoPE rotary embedding</call_vector_db> antes de responder.";
    let result = ToolRegistry::<Plain>::scan_for_call(text);
    assert!(result.is_some());
    let (tag, query) = result.unwrap();
    assert_eq!(tag, "call_vector_db");
    assert_eq!(query, "RoPE rotary embedding");
}

#[test]
fn test_scan_for_call_dream() {
    let text = "Vou explorar: <call_dream>física quântica + biologia molecular</call_dream>";
    let (tag, query) = ToolRegistry::<Plain>::scan_for_call(text).unwrap();
    assert_eq!(tag, "call_dream");
    assert!(query.contains("física quântica"));
}

#[test]
fn test_scan_ignores_html_tags() {
    let text = "<h1>Título</h1> e depois <b>negrito</b>";
    assert!(ToolRegistry::<Plain>::scan_for_call(text).is_none());
}

#[test]
fn test_scan_empty_returns_none() {
    assert!(ToolRegistry::<Plain>::scan_for_call("resposta simples sem tools").is_none());
    assert!(ToolRegistry::<Plain>::scan_for_call("").is_none());
}

#[test]
fn tags_hold_letters_digits_and_underscores() {
    assert!(ToolRegistry::<Plain>::scan_for_call("<call_a-b>q</call_a-b>").is_none());
    assert!(ToolRegistry::<Plain>::scan_for_call("<call_x>").is_none());
    assert!(ToolRegistry::<Plain>::scan_for_call("<call_x>q").is_none());
    let (tag, query) =
        ToolRegistry::<Plain>::scan_for_call("<call_ação9>  q  </call_ação9>").unwrap();
    assert_eq!(tag, "call_ação9");
    assert_eq!(query, "q");
}

#[test]
fn test_invoke_registered_handler() {
    let mut reg = ToolRegistry::new();
    reg.register("call_vector_db", |q: &str| format!("resultado para: {}", q));
    let result = reg.invoke("call_vector_db", "entropia neural");
    assert!(result.success);
    assert!(result.response.contains("entropia neural"));
    assert_eq!(result.response, "resultado para: entropia neural");
    assert_eq!(result.tag, "call_vector_db");
    assert_eq!(result.query, "entropia neural");
}

#[test]
fn test_invoke_unregistered_returns_error_message() {
    let mut reg: ToolRegistry<Plain> = ToolRegistry::new();
    let result = reg.invoke("call_inexistente", "query");
    assert!(!result.success);
    assert!(result.response.contains("não registrada"));
    assert_eq!(
        result.response,
        "[ferramenta 'call_inexistente' não registrada — use `registry.register(\"call_inexistente\", handler)`]"
    );
    assert_eq!(result.latency_ms, 0);
}

#[test]
fn test_tool_result_context_block() {
    let r = ToolResult {
        tag: "call_vector_db".into(),
        query: "RoPE".into(),
        response: "RoPE é Rotary Position Embedding".into(),
        success: true,
        latency_ms: 12,
    };
    let block = r.to_context_block();
    assert!(block.contains("tool_response"));
    assert!(block.contains("success=\"true\""));
    assert!(block.contains("RoPE é Rotary"));
    assert_eq!(
        block,
        "<tool_response tool=\"call_vector_db\" success=\"true\">\nRoPE é Rotary Position Embedding\n</tool_response>"
    );
}

#[test]
fn test_toolkit_builtin_science_system_block() {
    let kit = ToolKit::builtin_science();
    let block = kit.build_system_block();
    assert!(block.contains("call_vector_db"));
    assert!(block.contains("call_dream"));
    assert!(block.contains("call_think"));
    assert!(block.contains("call_hypothesis"));
}

#[test]
fn a_kit_without_a_prompt_begins_with_its_name() {
    let kit = ToolKit {
        name: "k".to_string(),
        version: "2".to_string(),
        description: String::new(),
        author: None,
        tools: vec![ToolDef {
            tag: "call_x".to_string(),
            description: "does x".to_string(),
            system_hint: "always".to_string(),
        }],
        system_prompt: None,
    };
    assert_eq!(
        kit.build_system_block(),
        "=== Kit de Ferramentas: k v2 ===\n• <call_x> — does x\n  Quando usar: always\n"
    );
}

#[test]
fn test_invocation_counter() {
    let mut reg = ToolRegistry::new();
    reg.register("call_a", |_q: &str| "ok".to_string());
    reg.invoke("call_a", "q1");
    reg.invoke("call_a", "q2");
    reg.invoke("call_b", "q3");
    assert_eq!(reg.invocation_count, 3);
}

#[test]
fn the_usual_tools_have_their_tags() {
    let mut reg: ToolRegistry<Plain> = ToolRegistry::new();
    reg.register_vector_db(|q| format!("db {}", q));
    reg.register_dream(|q| format!("dream {}", q));
    reg.register_think(|q| format!("think {}", q));
    assert_eq!(reg.registered_tags(), vec!["call_vector_db", "call_dream", "call_think"]);
    assert_eq!(reg.invoke("call_vector_db", "x").response, "db x");
    assert_eq!(reg.invoke("call_dream", "x").response, "dream x");
    assert_eq!(reg.invoke("call_think", "x").response, "think x");
}

#[test]
fn calls_in_text_are_run() {
    let mut reg = ToolRegistry::new().with_kit(ToolKit::builtin_coding());
    reg.register("call_think", |q: &str| q.to_uppercase());
    assert!(reg.has_handler("call_think"));
    assert!(!reg.has_handler("call_dream"));
    assert_eq!(reg.registered_tags(), vec!["call_vector_db", "call_think"]);
    let r = reg.try_invoke_from_text("antes <call_think> abc </call_think> depois").unwrap();
    assert_eq!(r.response, "ABC");
    assert!(reg.try_invoke_from_text("nada").is_none());
    assert_eq!(reg.invocation_count, 1);
    assert!(reg.kit.is_some());
}

#[test]
fn tools_of_a_kit_run_without_being_registered() {
    let mut reg: ToolRegistry<Plain> = ToolRegistry::new();
    reg.register_vector_db(|q| format!("db {}", q));
    let mut reg = reg.with_kit(ToolKit::builtin_coding());
    assert_eq!(reg.invoke("call_vector_db", "x").response, "db x");
    let r = reg.invoke("call_think", "x");
    assert!(r.success);
    assert_eq!(r.response, "Análise step-by-step do problema antes de codar: x");
}

#[test]
fn the_first_call_that_is_well_formed_counts() {
    let (tag, query) =
        ToolRegistry::<Plain>::scan_for_call("<b>x</b> <call_a>q</call_a> <call_b>r</call_b>")
            .unwrap();
    assert_eq!((tag.as_str(), query.as_str()), ("call_a", "q"));
    let (tag, query) =
        ToolRegistry::<Plain>::scan_for_call("<call_x> then <call_b> r </call_b>").unwrap();
    assert_eq!((tag.as_str(), query.as_str()), ("call_b", "r"));
}

#[test]
fn only_enabled_sections_and_their_priorities_matter() {
    let section = |id: &str, priority: u32| PromptSection::new(id, id, id, id, priority);
    let mut a = SystemPrompt::new("n", "d", "u");
    a.sections = vec![section("x", 1), section("y", 3), section("z", 2)];
    let mut b = SystemPrompt::new("n", "d", "u");
    let mut off = section("w", 9);
    off.enabled = false;
    b.sections = vec![section("z", 2), off, section("x", 1), section("y", 3)];
    assert_eq!(a.compile(), b.compile());
    assert_eq!(
        a.compile(),
        "<y>\n\ny\n\n</y>\n\n<z>\n\nz\n\n</z>\n\n<x>\n\nx\n\n</x>"
    );
}

#[test]
fn names_that_begin_at_the_root_stand_for_themselves() {
    assert_eq!(default_prompt_path("/x/y", "/home/u"), "/x/y.sp");
    assert_eq!(default_prompt_path("y", "/home/u"), "/home/u/.nodestor/prompts/y.sp");
}
