//! What the inference pipeline decides: configuration, the shape of the model,
//! the tokenizer, prompts, and what a generation reports.
//!
//! The steps of decoding itself are in `speculation`.

use vstd::prelude::*;

use crate::description::treatable;
use crate::errors::NodeStorError;
use crate::moe_kernel::{moe_shape, MoeConfig};
use crate::multi_tenant::{InferenceRequest, MultiTenantScheduler, Schedule};
use crate::named_map::NamedMap;
use crate::numerals::{numeral, parse_number};
use crate::paths::{home_of, is_bare, joined, resolve_model_path};
use crate::speculation::Decoder;
use crate::text::{
    check_space, dec, is_space, join, join_strings, push_dec, to_chars, trim, trimmed, views,
};
use crate::tokenizer::{
    gguf_missing, gguf_parts, reads, TokenizerManager, TokenizerParts,
};
use crate::weight_store::{
    build_weight_bank, completed, countable, filled, loaded_views, tied, tied_output, TensorInfo,
    WeightBank,
};

verus! {

// ─── Configuration ───────────────────────────────────────────────────────────

/// The settings of a pipeline.
#[derive(Debug)]
pub struct InferenceConfig {
    pub model_path: String,
    pub prefetch_depth: usize,
    pub buffer_size: usize,
}

/// Where the context is kept.
#[derive(Debug, Clone, Copy, PartialEq, Eq, Structural)]
pub struct KVCachePaginator {
    pub vram_capacity_tokens: usize,
    pub ssd_offload_enabled: bool,
}

/// What is watched while a model generates.
#[derive(Debug, Clone, Copy, PartialEq, Eq, Structural)]
pub struct ProbesConfig {
    pub enabled: bool,
    pub hidden_dim: usize,
    pub sae_dict_size: usize,
    /// The threshold of the encoder's activation, as the bits of a
    /// single-precision number.
    pub sae_threshold: u32,
    pub raise_block_sa_level: u8,
}

/// 0.5 in single precision.
pub const HALF_BITS: u32 = 0x3F00_0000;

/// 10000 in single precision.
pub const TEN_THOUSAND_BITS: u32 = 0x461C_4000;

/// The single-precision number nearest to a hundred-thousandth.
pub const DEFAULT_EPS_BITS: u32 = 0x3727_C5AC;

impl Default for ProbesConfig {
    fn default() -> (c: ProbesConfig)
        ensures
            c == (ProbesConfig {
                enabled: true,
                hidden_dim: 4096,
                sae_dict_size: 8192,
                sae_threshold: HALF_BITS,
                raise_block_sa_level: 4,
            }),
    {
        ProbesConfig {
            enabled: true,
            hidden_dim: 4096,
            sae_dict_size: 8192,
            sae_threshold: HALF_BITS,
            raise_block_sa_level: 4,
        }
    }
}

/// A direction that is projected out of the hidden state, and how strongly, as
/// the bits of single-precision numbers.
#[derive(Debug)]
pub struct ActivationSteeringConfig {
    pub direction: Vec<u32>,
    pub intensity: u32,
}

// ─── Metadata ────────────────────────────────────────────────────────────────

/// A value in the metadata of a model.
#[derive(Debug)]
pub enum MetaValue {
    Text(String),
    /// A number: as an unsigned integer, where it is one, and as the bits of the
    /// nearest single-precision number.
    Number { unsigned: Option<u64>, float: u32 },
    List(Vec<MetaValue>),
    Other,
}

/// The texts among the first `n` values.
pub open spec fn texts_in(values: Seq<MetaValue>, n: int) -> Seq<Seq<char>>
    decreases n,
{
    if n <= 0 {
        Seq::empty()
    } else {
        match values[n - 1] {
            MetaValue::Text(s) => texts_in(values, n - 1).push(s@),
            _ => texts_in(values, n - 1),
        }
    }
}

/// The texts of a list in the metadata; none where there is no such list.
pub open spec fn texts_at(extra: Map<Seq<char>, MetaValue>, key: Seq<char>) -> Seq<Seq<char>> {
    if extra.contains_key(key) {
        match extra[key] {
            MetaValue::List(l) => texts_in(l@, l@.len() as int),
            _ => Seq::empty(),
        }
    } else {
        Seq::empty()
    }
}

/// An unsigned number in the metadata, in 32 bits.
pub open spec fn number_at(extra: Map<Seq<char>, MetaValue>, key: Seq<char>) -> Option<u32> {
    if extra.contains_key(key) {
        match extra[key] {
            MetaValue::Number { unsigned: Some(n), .. } => Some(n as u32),
            _ => None,
        }
    } else {
        None
    }
}

/// A number in the metadata, in single precision.
pub open spec fn float_at(extra: Map<Seq<char>, MetaValue>, key: Seq<char>) -> Option<u32> {
    if extra.contains_key(key) {
        match extra[key] {
            MetaValue::Number { float, .. } => Some(float),
            _ => None,
        }
    } else {
        None
    }
}

/// The texts of a list in the metadata.
pub fn str_array(extra: &NamedMap<MetaValue>, key: &str) -> (r: Vec<String>)
    requires
        extra.wf(),
    ensures
        views(r@) == texts_at(extra@, key@),
{
    let mut r: Vec<String> = Vec::new();
    assert(views(r@) =~= Seq::<Seq<char>>::empty());
    match extra.get(key) {
        Some(MetaValue::List(l)) => {
            let mut i: usize = 0;
            while i < l.len()
                invariant
                    i <= l@.len(),
                    views(r@) == texts_in(l@, i as int),
                decreases l@.len() - i,
            {
                let ghost before = r@;
                match &l[i] {
                    MetaValue::Text(s) => {
                        r.push(s.clone());
                        assert(views(r@) =~= views(before).push(s@));
                    },
                    _ => {},
                }
                i = i + 1;
            }
        },
        _ => {},
    }
    r
}

/// An unsigned number in the metadata, in 32 bits.
pub fn u32_meta(extra: &NamedMap<MetaValue>, key: &str) -> (r: Option<u32>)
    requires
        extra.wf(),
    ensures
        r == number_at(extra@, key@),
{
    match extra.get(key) {
        Some(MetaValue::Number { unsigned: Some(n), .. }) => Some(*n as u32),
        _ => None,
    }
}

/// A number in the metadata, in single precision.
pub fn f32_meta(extra: &NamedMap<MetaValue>, key: &str) -> (r: Option<u32>)
    requires
        extra.wf(),
    ensures
        r == float_at(extra@, key@),
{
    match extra.get(key) {
        Some(MetaValue::Number { float, .. }) => Some(*float),
        _ => None,
    }
}

/// The epsilon of the normalisation: that of the first architecture whose key
/// is there, or the usual one.
pub open spec fn eps_of(extra: Map<Seq<char>, MetaValue>) -> u32 {
    match float_at(extra, "qwen2.attention.layer_norm_rms_epsilon"@) {
        Some(e) => e,
        None => match float_at(extra, "llama.attention.layer_norm_rms_epsilon"@) {
            Some(e) => e,
            None => match float_at(extra, "gemma.attention.layer_norm_rms_epsilon"@) {
                Some(e) => e,
                None => DEFAULT_EPS_BITS,
            },
        },
    }
}

/// The epsilon of the normalisation.
pub fn rms_eps(extra: &NamedMap<MetaValue>) -> (e: u32)
    requires
        extra.wf(),
    ensures
        e == eps_of(extra@),
{
    if let Some(e) = f32_meta(extra, "qwen2.attention.layer_norm_rms_epsilon") {
        return e;
    }
    if let Some(e) = f32_meta(extra, "llama.attention.layer_norm_rms_epsilon") {
        return e;
    }
    if let Some(e) = f32_meta(extra, "gemma.attention.layer_norm_rms_epsilon") {
        return e;
    }
    DEFAULT_EPS_BITS
}

// ─── The shape of the model ──────────────────────────────────────────────────

/// The dimensions of a transformer.
#[derive(Debug, Clone, Copy, PartialEq, Eq, Structural)]
pub struct Dimensions {
    pub num_layers: u32,
    pub vocab_size: u32,
    pub hidden_size: u32,
    pub num_heads: u32,
    pub num_kv_heads: u32,
    pub intermediate_size: u32,
    /// The base of the position encoding, as the bits of a single-precision
    /// number.
    pub rope_base: u32,
}

/// The architecture of a model.
#[derive(Debug, Clone, Copy, PartialEq, Eq, Structural)]
pub enum ModelArchitecture {
    Llama(Dimensions),
    Other,
}

/// The dimensions that stand for an unknown architecture.
pub open spec fn default_dimensions() -> Dimensions {
    Dimensions {
        num_layers: 32,
        vocab_size: 32000,
        hidden_size: 4096,
        num_heads: 32,
        num_kv_heads: 8,
        intermediate_size: 11008,
        rope_base: TEN_THOUSAND_BITS,
    }
}

impl ModelArchitecture {
    /// The dimensions of the architecture.
    pub open spec fn dims(self) -> Dimensions {
        match self {
            ModelArchitecture::Llama(d) => d,
            ModelArchitecture::Other => default_dimensions(),
        }
    }

    /// The dimensions of the architecture; usual ones where it is unknown.
    pub fn dimensions(&self) -> (d: Dimensions)
        ensures
            d == self.dims(),
    {
        match self {
            ModelArchitecture::Llama(d) => *d,
            ModelArchitecture::Other => Dimensions {
                num_layers: 32,
                vocab_size: 32000,
                hidden_size: 4096,
                num_heads: 32,
                num_kv_heads: 8,
                intermediate_size: 11008,
                rope_base: TEN_THOUSAND_BITS,
            },
        }
    }
}

/// The dimension of an attention head.
pub open spec fn head_dim_of(d: Dimensions) -> int {
    if d.num_heads > 0 {
        d.hidden_size as int / d.num_heads as int
    } else {
        64
    }
}

/// The dimension of an attention head.
pub fn head_dim(d: &Dimensions) -> (n: usize)
    ensures
        n == head_dim_of(*d),
{
    if d.num_heads > 0 {
        (d.hidden_size / d.num_heads) as usize
    } else {
        64
    }
}

/// What a forward pass needs to know of the model.
#[derive(Debug)]
pub struct CpuModelConfig {
    pub n_layers: usize,
    pub hidden: usize,
    pub n_heads: usize,
    pub n_kv_heads: usize,
    pub head_dim: usize,
    pub intermediate: usize,
    pub vocab: usize,
    pub rope_base: u32,
    pub eps: u32,
    pub moe: Option<MoeConfig>,
}

impl CpuModelConfig {
    /// The configuration is that of a model with these dimensions, metadata and
    /// weights, and a vocabulary of this size.
    pub open spec fn describes(
        &self,
        d: Dimensions,
        extra: Map<Seq<char>, MetaValue>,
        bank: Map<Seq<char>, Seq<u8>>,
        vocab: int,
    ) -> bool {
        &&& self.n_layers == d.num_layers
        &&& self.hidden == d.hidden_size
        &&& self.n_heads == d.num_heads
        &&& self.n_kv_heads == d.num_kv_heads
        &&& self.head_dim == head_dim_of(d)
        &&& self.intermediate == d.intermediate_size
        &&& self.vocab == vocab
        &&& self.rope_base == d.rope_base
        &&& self.eps == eps_of(extra)
        &&& moe_shape(bank, d.hidden_size as usize, d.intermediate_size as usize, self.moe)
    }
}

fn model_config(
    d: &Dimensions,
    extra: &NamedMap<MetaValue>,
    bank: &WeightBank,
    vocab: usize,
) -> (c: CpuModelConfig)
    requires
        extra.wf(),
        bank.wf(),
    ensures
        c.describes(*d, extra@, bank@, vocab as int),
{
    CpuModelConfig {
        n_layers: d.num_layers as usize,
        hidden: d.hidden_size as usize,
        n_heads: d.num_heads as usize,
        n_kv_heads: d.num_kv_heads as usize,
        head_dim: head_dim(d),
        intermediate: d.intermediate_size as usize,
        vocab,
        rope_base: d.rope_base,
        eps: rms_eps(extra),
        moe: MoeConfig::from_weight_bank(
            bank,
            d.hidden_size as usize,
            d.intermediate_size as usize,
        ),
    }
}

/// The size of the vocabulary: that of the model file where it is larger than
/// that of the architecture.
pub open spec fn vocab_for(extra: Map<Seq<char>, MetaValue>, d: Dimensions) -> int {
    let n = texts_at(extra, "tokenizer.ggml.tokens"@).len() as int;
    if n > d.vocab_size {
        n
    } else {
        d.vocab_size as int
    }
}

// ─── Numbers in names ────────────────────────────────────────────────────────

/// Where the first dot of a text at or after `from` is, or its length.
pub open spec fn first_dot(s: Seq<char>, from: int) -> int
    decreases s.len() - from,
{
    if from < 0 || from >= s.len() || s[from] == '.' {
        from
    } else {
        first_dot(s, from + 1)
    }
}

/// The number of the layer that a tensor belongs to, by its name: what stands
/// between `blk.` and the next dot.
pub open spec fn layer_of(name: Seq<char>) -> Option<nat> {
    if name.len() >= 4 && name[0] == 'b' && name[1] == 'l' && name[2] == 'k' && name[3] == '.' {
        let dot = first_dot(name, 4);
        if dot < name.len() {
            numeral(name.subrange(4, dot), usize::MAX as nat)
        } else {
            None
        }
    } else {
        None
    }
}

/// The highest layer among the first `n` tensors.
pub open spec fn highest_layer(tensors: Seq<TensorInfo>, n: int) -> Option<nat>
    decreases n,
{
    if n <= 0 {
        None
    } else {
        match (highest_layer(tensors, n - 1), layer_of(tensors[n - 1].name@)) {
            (Some(a), Some(b)) => Some(
                if a > b {
                    a
                } else {
                    b
                },
            ),
            (Some(a), None) => Some(a),
            (None, b) => b,
        }
    }
}

/// How many layers a model with these tensors has; 32 where no name says.
pub open spec fn layer_count(tensors: Seq<TensorInfo>) -> nat {
    match highest_layer(tensors, tensors.len() as int) {
        Some(m) => m + 1,
        None => 32,
    }
}

/// Every tensor that names a layer belongs to one of the layers counted.
pub proof fn layers_are_counted(tensors: Seq<TensorInfo>, i: int)
    requires
        0 <= i < tensors.len(),
        layer_of(tensors[i].name@) is Some,
    ensures
        layer_of(tensors[i].name@)->0 < layer_count(tensors),
{
    layers_are_counted_up_to(tensors, i, tensors.len() as int);
}

proof fn layers_are_counted_up_to(tensors: Seq<TensorInfo>, i: int, n: int)
    requires
        0 <= i < n <= tensors.len(),
        layer_of(tensors[i].name@) is Some,
    ensures
        highest_layer(tensors, n) is Some,
        layer_of(tensors[i].name@)->0 <= highest_layer(tensors, n)->0,
    decreases n,
{
    if i < n - 1 {
        layers_are_counted_up_to(tensors, i, n - 1);
    }
}

fn layer_number(name: &str) -> (r: Option<usize>)
    ensures
        match (r, layer_of(name@)) {
            (Some(a), Some(b)) => a == b,
            (None, None) => true,
            _ => false,
        },
{
    let v = to_chars(name);
    let n: usize = v.len();
    if !(n >= 4 && v[0] == 'b' && v[1] == 'l' && v[2] == 'k' && v[3] == '.') {
        return None;
    }
    let mut dot: usize = 4;
    while dot < n && v[dot] != '.'
        invariant
            v@ == name@,
            n == v@.len(),
            4 <= dot <= n,
            first_dot(name@, 4) == first_dot(name@, dot as int),
        decreases n - dot,
    {
        dot = dot + 1;
    }
    if dot < n {
        match parse_number(&v, 4, dot, usize::MAX as u64) {
            Some(n) => Some(n as usize),
            None => None,
        }
    } else {
        None
    }
}

/// The highest layer that the tensors name.
fn find_highest_layer(tensors: &Vec<TensorInfo>) -> (top: Option<usize>)
    ensures
        match (top, highest_layer(tensors@, tensors@.len() as int)) {
            (Some(a), Some(b)) => a == b,
            (None, None) => true,
            _ => false,
        },
{
    let mut top: Option<usize> = None;
    let mut i: usize = 0;
    while i < tensors.len()
        invariant
            i <= tensors@.len(),
            match (top, highest_layer(tensors@, i as int)) {
                (Some(a), Some(b)) => a == b,
                (None, None) => true,
                _ => false,
            },
        decreases tensors@.len() - i,
    {
        match layer_number(tensors[i].name.as_str()) {
            Some(b) => {
                top = match top {
                    Some(a) => Some(
                        if a > b {
                            a
                        } else {
                            b
                        },
                    ),
                    None => Some(b),
                };
            },
            None => {},
        }
        i = i + 1;
    }
    top
}

/// Whether the layers of a model with these tensors can be counted.
pub fn can_count_layers(tensors: &Vec<TensorInfo>) -> (b: bool)
    ensures
        b == (layer_count(tensors@) <= usize::MAX),
{
    match find_highest_layer(tensors) {
        Some(m) => m < usize::MAX,
        None => true,
    }
}

/// How many layers a model with these tensors has.
pub fn count_layers(tensors: &Vec<TensorInfo>) -> (n: usize)
    requires
        layer_count(tensors@) <= usize::MAX,
    ensures
        n == layer_count(tensors@),
{
    match find_highest_layer(tensors) {
        Some(m) => m + 1,
        None => 32,
    }
}

// ─── Tokenizers ──────────────────────────────────────────────────────────────

/// The tokenizer of a generation whose model brings no vocabulary.
pub const PLAIN_TOKENIZER: &'static str = "{\"version\":\"1.0\",\"truncation\":null,\"padding\":null,\"added_tokens\":[{\"id\":0,\"content\":\"<unk>\",\"single_word\":false,\"lstrip\":false,\"rstrip\":false,\"normalized\":false,\"special\":true}],\"normalizer\":null,\"pre_tokenizer\":{\"type\":\"Whitespace\"},\"post_processor\":null,\"decoder\":null,\"model\":{\"type\":\"WordLevel\",\"vocab\":{\"<unk>\":0,\"Hello\":1,\"World\":2},\"unk_token\":\"<unk>\"}}";

/// The tokenizer of a calibration whose model brings no vocabulary.
pub const CALIBRATION_TOKENIZER: &'static str = "{\"version\":\"1.0\",\"truncation\":null,\"padding\":null,\"added_tokens\":[{\"id\":0,\"content\":\"<unk>\",\"single_word\":false,\"lstrip\":false,\"rstrip\":false,\"normalized\":false,\"special\":true}],\"normalizer\":null,\"pre_tokenizer\":{\"type\":\"Whitespace\"},\"post_processor\":null,\"decoder\":null,\"model\":{\"type\":\"WordLevel\",\"vocab\":{\"<unk>\":0},\"unk_token\":\"<unk>\"}}";

/// The model brings a vocabulary, and its merges fit it.
pub open spec fn has_tokenizer(extra: Map<Seq<char>, MetaValue>) -> bool {
    let tokens = texts_at(extra, "tokenizer.ggml.tokens"@);
    let merges = texts_at(extra, "tokenizer.ggml.merges"@);
    tokens.len() > 0 && gguf_missing(tokens, merges) is None
}

/// The tokenizer that the metadata describes.
pub open spec fn own_tokenizer(extra: Map<Seq<char>, MetaValue>) -> TokenizerParts {
    gguf_parts(
        texts_at(extra, "tokenizer.ggml.tokens"@),
        texts_at(extra, "tokenizer.ggml.merges"@),
        number_at(extra, "tokenizer.ggml.bos_token_id"@),
        number_at(extra, "tokenizer.ggml.eos_token_id"@),
        number_at(extra, "tokenizer.ggml.unknown_token_id"@),
    )
}

/// A tokenizer can be read from a description.
pub open spec fn readable(json: Seq<char>) -> bool {
    treatable(json) && reads(json)
}

/// The tokenizer is the model's own, or the one that stands in for it.
pub open spec fn is_tokenizer_for(
    m: TokenizerManager,
    extra: Map<Seq<char>, MetaValue>,
    stand_in: Seq<char>,
) -> bool {
    if has_tokenizer(extra) {
        &&& m.parts() == own_tokenizer(extra)
        &&& m.vocabulary() == texts_at(extra, "tokenizer.ggml.tokens"@)
    } else {
        &&& readable(stand_in)
        &&& m.parts() == (TokenizerParts::Read { json: stand_in })
        &&& m.vocabulary().len() == 0
    }
}

fn choose_tokenizer(extra: &NamedMap<MetaValue>, stand_in: &str) -> (r: Result<
    TokenizerManager,
    NodeStorError,
>)
    requires
        extra.wf(),
    ensures
        match r {
            Ok(m) => is_tokenizer_for(m, extra@, stand_in@),
            Err(e) => !has_tokenizer(extra@) && !readable(stand_in@),
        },
{
    let tokens = str_array(extra, "tokenizer.ggml.tokens");
    let merges = str_array(extra, "tokenizer.ggml.merges");
    assert(views(tokens@).len() == tokens@.len());
    if tokens.len() > 0 {
        match TokenizerManager::from_gguf(
            &tokens,
            &merges,
            u32_meta(extra, "tokenizer.ggml.bos_token_id"),
            u32_meta(extra, "tokenizer.ggml.eos_token_id"),
            u32_meta(extra, "tokenizer.ggml.unknown_token_id"),
        ) {
            Ok(m) => {
                return Ok(m);
            },
            Err(_) => {},
        }
    }
    match TokenizerManager::from_string_checked(stand_in) {
        Some(r) => r,
        None => Err(NodeStorError::IoError("tokenizer description not supported".to_string())),
    }
}

/// The error of a tokenizer that cannot be made.
fn tokenizer_error(prefix: &str, e: NodeStorError) -> (r: NodeStorError)
    ensures
        r is InferenceError,
        r.text() == prefix@ + e.text(),
{
    let mut s = prefix.to_string();
    let m = e.message();
    s.append(m.as_str());
    NodeStorError::InferenceError(s)
}

/// The text begins with `prefix`.
pub open spec fn begins_with(s: Seq<char>, prefix: Seq<char>) -> bool {
    exists|rest: Seq<char>| s == #[trigger] (prefix + rest)
}

/// The tokenizer of a generation.
pub fn generation_tokenizer(extra: &NamedMap<MetaValue>) -> (r: Result<
    TokenizerManager,
    NodeStorError,
>)
    requires
        extra.wf(),
    ensures
        match r {
            Ok(m) => is_tokenizer_for(m, extra@, PLAIN_TOKENIZER@),
            Err(e) => {
                &&& !has_tokenizer(extra@)
                &&& !readable(PLAIN_TOKENIZER@)
                &&& e is InferenceError
                &&& begins_with(e.text(), "Falha ao construir tokenizer: "@)
            },
        },
{
    match choose_tokenizer(extra, PLAIN_TOKENIZER) {
        Ok(m) => Ok(m),
        Err(e) => Err(tokenizer_error("Falha ao construir tokenizer: ", e)),
    }
}

/// What a calibration works with.
pub struct CalibContext<'a> {
    pub cpu_cfg: CpuModelConfig,
    pub weight_bank: &'a WeightBank,
    pub tokenizer: TokenizerManager,
}

// ─── Prompts and results ─────────────────────────────────────────────────────

/// The texts among the first `n` fragments.
pub open spec fn payloads(fragments: Seq<Option<String>>, n: int) -> Seq<Seq<char>>
    decreases n,
{
    if n <= 0 {
        Seq::empty()
    } else {
        match fragments[n - 1] {
            Some(s) => payloads(fragments, n - 1).push(s@),
            None => payloads(fragments, n - 1),
        }
    }
}

/// The prompt with what was found for it in front. A fragment may be without
/// text.
pub fn effective_prompt(fragments: &Vec<Option<String>>, prompt: &str) -> (s: String)
    ensures
        s@ == if fragments@.len() == 0 {
            prompt@
        } else {
            "[Contexto]\n"@ + join(payloads(fragments@, fragments@.len() as int), "\n"@)
                + "\n\n[Pergunta]\n"@ + prompt@
        },
{
    if fragments.len() == 0 {
        return prompt.to_string();
    }
    let mut parts: Vec<String> = Vec::new();
    let mut i: usize = 0;
    assert(views(parts@) =~= payloads(fragments@, 0));
    while i < fragments.len()
        invariant
            i <= fragments@.len(),
            views(parts@) == payloads(fragments@, i as int),
        decreases fragments@.len() - i,
    {
        let ghost before = parts@;
        match &fragments[i] {
            Some(s) => {
                parts.push(s.clone());
                assert(views(parts@) =~= views(before).push(s@));
            },
            None => {},
        }
        i = i + 1;
    }
    let context = join_strings(&parts, "\n");
    let mut s = "[Contexto]\n".to_string();
    s.append(context.as_str());
    s.append("\n\n[Pergunta]\n");
    s.append(prompt);
    s
}

/// The tokens of the prompt, given its encoding: token 0 stands for one that
/// failed or is empty.
pub fn prompt_tokens(encoded: Option<Vec<u32>>) -> (r: Vec<u32>)
    ensures
        r@ == match encoded {
            Some(v) => if v@.len() > 0 {
                v@
            } else {
                seq![0u32]
            },
            None => seq![0u32],
        },
{
    let mut zero: Vec<u32> = Vec::new();
    zero.push(0);
    assert(zero@ =~= seq![0u32]);
    match encoded {
        Some(v) => if v.len() > 0 {
            v
        } else {
            zero
        },
        None => zero,
    }
}

/// A word begins at `i`.
pub open spec fn word_begins(s: Seq<char>, i: int) -> bool {
    !is_space(s[i]) && (i == 0 || is_space(s[i - 1]))
}

/// How many words begin among the first `n` characters.
pub open spec fn words_in(s: Seq<char>, n: int) -> nat
    decreases n,
{
    if n <= 0 {
        0
    } else {
        words_in(s, n - 1) + if word_begins(s, n - 1) {
            1nat
        } else {
            0nat
        }
    }
}

/// How many words a text has.
pub fn word_count(s: &str) -> (n: usize)
    ensures
        n == words_in(s@, s@.len() as int),
{
    let v = to_chars(s);
    let mut n: usize = 0;
    let mut i: usize = 0;
    while i < v.len()
        invariant
            v@ == s@,
            i <= v@.len(),
            n <= i,
            n == words_in(s@, i as int),
        decreases v@.len() - i,
    {
        if !check_space(v[i]) && (i == 0 || check_space(v[i - 1])) {
            n = n + 1;
        }
        i = i + 1;
    }
    n
}

/// Under which name a block that left the window is kept, given where the window
/// begins now; none for a blank text.
pub fn context_id(window_start: usize, text: &str) -> (r: Option<String>)
    ensures
        match r {
            Some(id) => trim(text@).len() > 0 && id@ == "ctx_"@ + dec(window_start as nat),
            None => trim(text@).len() == 0,
        },
{
    let t = trimmed(text);
    if t.as_str().unicode_len() == 0 {
        return None;
    }
    let mut id = "ctx_".to_string();
    push_dec(&mut id, window_start as u64);
    Some(id)
}

/// What a generation gives back as text, given the tokens and their text.
pub fn generated_text(tokens: &Vec<u32>, prompt: &str, decoded: Option<String>) -> (s: String)
    ensures
        s@ == if tokens@.len() == 0 {
            "(Sem tokens gerados para o prompt: "@ + prompt@ + ")"@
        } else {
            match decoded {
                Some(d) => d@,
                None => "Decode ERROR"@,
            }
        },
{
    if tokens.len() == 0 {
        let mut s = "(Sem tokens gerados para o prompt: ".to_string();
        s.append(prompt);
        s.append(")");
        return s;
    }
    match decoded {
        Some(d) => d,
        None => "Decode ERROR".to_string(),
    }
}

/// What a generation reports. Rates follow from these counts.
#[derive(Debug)]
pub struct GenerationStats {
    pub prompt_tokens: usize,
    pub generated_tokens: usize,
    pub total_time_ms: u128,
    pub probes_alerts: Vec<String>,
    pub conformal_rejections: usize,
    pub spec_rounds: usize,
    pub spec_drafted: usize,
    pub spec_accepted: usize,
    pub spec_k: usize,
    pub kv_vram_blocks: usize,
    pub kv_ssd_blocks: usize,
    pub context_tokens: usize,
}

/// What a generation reports when it is over.
pub fn generation_stats(
    prompt: &str,
    d: &Decoder,
    total_time_ms: u128,
    kv_vram_blocks: usize,
    kv_ssd_blocks: usize,
) -> (s: GenerationStats)
    ensures
        s.prompt_tokens == words_in(prompt@, prompt@.len() as int),
        s.generated_tokens == d.generated@.len(),
        s.total_time_ms == total_time_ms,
        s.probes_alerts@.len() == 0,
        s.conformal_rejections == 0,
        s.spec_rounds == d.spec_rounds,
        s.spec_drafted == d.spec_drafted,
        s.spec_accepted == d.spec_accepted,
        s.spec_k == d.draft_k,
        s.kv_vram_blocks == kv_vram_blocks,
        s.kv_ssd_blocks == kv_ssd_blocks,
        s.context_tokens == d.full_seq@.len(),
{
    GenerationStats {
        prompt_tokens: word_count(prompt),
        generated_tokens: d.generated.len(),
        total_time_ms,
        probes_alerts: Vec::new(),
        conformal_rejections: 0,
        spec_rounds: d.spec_rounds,
        spec_drafted: d.spec_drafted,
        spec_accepted: d.spec_accepted,
        spec_k: d.draft_k,
        kv_vram_blocks,
        kv_ssd_blocks,
        context_tokens: d.full_seq.len(),
    }
}

// ─── The pipeline ────────────────────────────────────────────────────────────

/// The tensor by which a layer is recognised on the device.
pub open spec fn layer_key(layer: nat) -> Seq<char> {
    "blk."@ + dec(layer) + ".attn_q.weight"@
}

/// The layers below `n` whose weights are on the device.
pub open spec fn resident(on_gpu: Map<Seq<char>, bool>, n: int) -> Seq<usize>
    decreases n,
{
    if n <= 0 {
        Seq::empty()
    } else {
        let key = layer_key((n - 1) as nat);
        if on_gpu.contains_key(key) && on_gpu[key] {
            resident(on_gpu, n - 1).push((n - 1) as usize)
        } else {
            resident(on_gpu, n - 1)
        }
    }
}

/// What the pipeline holds besides the device.
pub struct InferencePipeline {
    pub config: InferenceConfig,
    pub probes_config: ProbesConfig,
    pub tensors: Vec<TensorInfo>,
    pub extra: NamedMap<MetaValue>,
    pub architecture: ModelArchitecture,
    /// The weights that the processor reads.
    pub weight_bank: WeightBank,
    /// The weights for the device.
    pub gpu_weight_bank: WeightBank,
    /// Where the vector store of the model is.
    pub db_path: String,
    pub kv_paginator: KVCachePaginator,
    pub scheduler: MultiTenantScheduler,
    pub steering: Option<ActivationSteeringConfig>,
    pub n_layers: usize,
}

/// Where a model is.
pub open spec fn model_path_of(path: Seq<char>, home: Seq<char>) -> Seq<char> {
    if is_bare(path) {
        joined(joined(home_of(home), "models"@), path)
    } else {
        path
    }
}

impl InferencePipeline {
    pub open spec fn wf(&self) -> bool {
        self.extra.wf() && self.weight_bank.wf() && self.gpu_weight_bank.wf()
    }

    /// A pipeline for a model, given what its file holds: the tensors, the
    /// metadata, the architecture and the weights that could be loaded. The
    /// device is active or not.
    pub fn init(
        config: InferenceConfig,
        home: &str,
        tensors: Vec<TensorInfo>,
        extra: NamedMap<MetaValue>,
        architecture: ModelArchitecture,
        loaded: Vec<(String, Vec<u8>)>,
        gpu_active: bool,
    ) -> (p: InferencePipeline)
        requires
            extra.wf(),
            layer_count(tensors@) <= usize::MAX,
            forall|i: int|
                0 <= i < tensors@.len() && !filled(loaded_views(loaded@)).contains_key(
                    tensors@[i].name@,
                ) ==> countable((#[trigger] tensors@[i]).shape@),
        ensures
            p.wf(),
            p.config.model_path@ == model_path_of(config.model_path@, home@),
            p.config.prefetch_depth == config.prefetch_depth,
            p.config.buffer_size == config.buffer_size,
            p.probes_config == (ProbesConfig {
                enabled: true,
                hidden_dim: 4096,
                sae_dict_size: 8192,
                sae_threshold: HALF_BITS,
                raise_block_sa_level: 4,
            }),
            p.tensors == tensors,
            p.extra == extra,
            p.architecture == architecture,
            ({
                let whole = completed(filled(loaded_views(loaded@)), tensors@);
                &&& p.weight_bank@ == tied(whole, tied_output(whole))
                &&& p.gpu_weight_bank@ == if gpu_active {
                    tied(filled(loaded_views(loaded@)), tied_output(whole))
                } else {
                    Map::<Seq<char>, Seq<u8>>::empty()
                }
            }),
            p.db_path@ == model_path_of(config.model_path@, home@) + "/vector_db"@,
            p.kv_paginator == (KVCachePaginator {
                vram_capacity_tokens: 32768,
                ssd_offload_enabled: true,
            }),
            p.scheduler.page_pool.total_blocks == 1024,
            p.scheduler.context_size_per_block == 128,
            p.scheduler.schedule(Seq::empty()) == (Schedule {
                bitmap: Seq::new(1024, |i: int| true),
                tables: Map::empty(),
                queue: Seq::empty(),
                active: Seq::empty(),
            }),
            p.scheduler.schedule(Seq::empty()).isolated(),
            p.steering is None,
            p.n_layers == layer_count(tensors@),
    {
        let path = resolve_model_path(config.model_path.as_str(), home);
        let (weight_bank, uploaded) = build_weight_bank(loaded, &tensors);
        let gpu_weight_bank = if gpu_active {
            uploaded
        } else {
            WeightBank::new()
        };
        let mut db_path = path.clone();
        db_path.append("/vector_db");
        let n_layers: usize = count_layers(&tensors);
        InferencePipeline {
            config: InferenceConfig {
                model_path: path,
                prefetch_depth: config.prefetch_depth,
                buffer_size: config.buffer_size,
            },
            probes_config: ProbesConfig::default(),
            tensors,
            extra,
            architecture,
            weight_bank,
            gpu_weight_bank,
            db_path,
            kv_paginator: KVCachePaginator {
                vram_capacity_tokens: 32768,
                ssd_offload_enabled: true,
            },
            scheduler: MultiTenantScheduler::new(1024, 128),
            steering: None,
            n_layers,
        }
    }

    /// The same pipeline with other probes.
    pub fn with_probes(self, probes_config: ProbesConfig) -> (p: InferencePipeline)
        ensures
            p == (InferencePipeline { probes_config, ..self }),
    {
        let mut p = self;
        p.probes_config = probes_config;
        p
    }

    /// The same pipeline, steered.
    pub fn with_steering(self, config: ActivationSteeringConfig) -> (p: InferencePipeline)
        ensures
            p == (InferencePipeline { steering: Some(config), ..self }),
    {
        let mut p = self;
        p.steering = Some(config);
        p
    }

    /// The layers whose weights are on the device, so that the processor's copy
    /// can go, given which tensors are there.
    pub fn evict_gpu_resident_cpu_weights(&self, on_gpu: &NamedMap<bool>) -> (r: Vec<usize>)
        requires
            on_gpu.wf(),
        ensures
            r@ == resident(on_gpu@, self.n_layers as int),
    {
        let mut r: Vec<usize> = Vec::new();
        let mut layer: usize = 0;
        assert(r@ =~= resident(on_gpu@, 0));
        while layer < self.n_layers
            invariant
                on_gpu.wf(),
                layer <= self.n_layers,
                r@ == resident(on_gpu@, layer as int),
            decreases self.n_layers - layer,
        {
            let mut key = "blk.".to_string();
            push_dec(&mut key, layer as u64);
            key.append(".attn_q.weight");
            assert(key@ =~= layer_key(layer as nat));
            let there: bool = match on_gpu.get(key.as_str()) {
                Some(b) => *b,
                None => false,
            };
            if there {
                r.push(layer);
            }
            layer = layer + 1;
        }
        r
    }

    /// What stands for a context that is read back from the disk.
    pub fn load_context_from_ssd(&self, _layer_idx: usize) -> (r: Vec<u8>)
        ensures
            r@ == Seq::new(1024, |i: int| 0u8),
    {
        let r: Vec<u8> = vec![0u8; 1024];
        assert(r@ =~= Seq::new(1024, |i: int| 0u8));
        r
    }

    /// Hands a request to the scheduler.
    pub fn submit_request(&mut self, request: InferenceRequest)
        ensures
            final(self).scheduler.queue@ == old(self).scheduler.queue@.push(request),
            final(self).scheduler.page_pool == old(self).scheduler.page_pool,
            final(self).scheduler.session_tables == old(self).scheduler.session_tables,
            final(self).scheduler.context_size_per_block == old(
                self,
            ).scheduler.context_size_per_block,
            final(self).config == old(self).config,
            final(self).probes_config == old(self).probes_config,
            final(self).tensors == old(self).tensors,
            final(self).extra == old(self).extra,
            final(self).architecture == old(self).architecture,
            final(self).weight_bank == old(self).weight_bank,
            final(self).gpu_weight_bank == old(self).gpu_weight_bank,
            final(self).db_path == old(self).db_path,
            final(self).kv_paginator == old(self).kv_paginator,
            final(self).steering == old(self).steering,
            final(self).n_layers == old(self).n_layers,
    {
        self.scheduler.submit_request(request);
    }

    /// What a forward pass of a generation needs to know of the model.
    pub fn generation_config(&self) -> (c: CpuModelConfig)
        requires
            self.wf(),
        ensures
            c.describes(
                self.architecture.dims(),
                self.extra@,
                self.weight_bank@,
                vocab_for(self.extra@, self.architecture.dims()),
            ),
    {
        let d = self.architecture.dimensions();
        let tokens = str_array(&self.extra, "tokenizer.ggml.tokens");
        assert(views(tokens@).len() == tokens@.len());
        let vocab: usize = if tokens.len() > d.vocab_size as usize {
            tokens.len()
        } else {
            d.vocab_size as usize
        };
        model_config(&d, &self.extra, &self.weight_bank, vocab)
    }

    /// The token that ends a text.
    pub fn eos_token(&self) -> (t: Option<u32>)
        requires
            self.wf(),
        ensures
            t == number_at(self.extra@, "tokenizer.ggml.eos_token_id"@),
    {
        u32_meta(&self.extra, "tokenizer.ggml.eos_token_id")
    }

    /// The weights that the device reads: those of the processor where it has
    /// none of its own.
    pub fn device_bank(&self) -> (b: &WeightBank)
        ensures
            *b == if self.gpu_weight_bank.tensors.entries@.len() == 0 {
                self.weight_bank
            } else {
                self.gpu_weight_bank
            },
    {
        if self.gpu_weight_bank.tensors.entries.len() == 0 {
            &self.weight_bank
        } else {
            &self.gpu_weight_bank
        }
    }

    /// What a calibration works with.
    pub fn build_calib_context(&self) -> (r: Result<CalibContext<'_>, NodeStorError>)
        requires
            self.wf(),
        ensures
            match r {
                Ok(c) => {
                    &&& c.cpu_cfg.describes(
                        self.architecture.dims(),
                        self.extra@,
                        self.weight_bank@,
                        self.architecture.dims().vocab_size as int,
                    )
                    &&& *c.weight_bank == self.weight_bank
                    &&& is_tokenizer_for(c.tokenizer, self.extra@, CALIBRATION_TOKENIZER@)
                },
                Err(e) => {
                    &&& !has_tokenizer(self.extra@)
                    &&& !readable(CALIBRATION_TOKENIZER@)
                    &&& e is InferenceError
                    &&& begins_with(e.text(), "Tokenizer: "@)
                },
            },
    {
        let d = self.architecture.dimensions();
        let cpu_cfg = model_config(&d, &self.extra, &self.weight_bank, d.vocab_size as usize);
        match choose_tokenizer(&self.extra, CALIBRATION_TOKENIZER) {
            Ok(tokenizer) => Ok(CalibContext { cpu_cfg, weight_bank: &self.weight_bank, tokenizer }),
            Err(e) => Err(tokenizer_error("Tokenizer: ", e)),
        }
    }

    /// The size of the hidden state and of the vocabulary.
    pub fn model_dims(&self) -> (r: (usize, usize))
        requires
            self.wf(),
        ensures
            r == if has_tokenizer(self.extra@) || readable(CALIBRATION_TOKENIZER@) {
                let d = self.architecture.dims();
                (d.hidden_size as usize, d.vocab_size as usize)
            } else {
                (4096usize, 32000usize)
            },
    {
        match self.build_calib_context() {
            Ok(c) => (c.cpu_cfg.hidden, c.cpu_cfg.vocab),
            Err(_) => (4096, 32000),
        }
    }
}

/// Whether the next pass goes to the device: it does until the device gives
/// nothing once.
pub fn device_stays(gpu_active: bool, device_gave: bool) -> (b: bool)
    ensures
        b == (gpu_active && device_gave),
{
    gpu_active && device_gave
}

/// Whether there are enough samples of both kinds to calibrate by.
pub fn enough_samples(positive: usize, negative: usize) -> (b: bool)
    ensures
        b == (positive >= 2 && negative >= 2),
{
    !(positive < 2 || negative < 2)
}

/// Texts that call for an answer.
pub fn positive_texts() -> (r: Vec<String>)
    ensures
        views(r@) == seq![
            "Derive the mathematical proof of the central limit theorem using characteristic functions."@,
            "Explain the computational complexity of the Cooley-Tukey FFT algorithm in Big-O notation."@,
            "Describe the quantum mechanical basis for covalent bond formation in molecular orbital theory."@,
            "Analyze the formal semantics of the lambda calculus using beta and eta reduction rules."@,
            "What are the foundational axioms of Zermelo-Fraenkel set theory and their implications?"@,
            "Calculate the Jacobian matrix of a multivariate function and explain its geometric interpretation."@,
        ],
{
    let mut r: Vec<String> = Vec::new();
    r.push(
        "Derive the mathematical proof of the central limit theorem using characteristic functions.".to_string(),
    );
    r.push(
        "Explain the computational complexity of the Cooley-Tukey FFT algorithm in Big-O notation.".to_string(),
    );
    r.push(
        "Describe the quantum mechanical basis for covalent bond formation in molecular orbital theory.".to_string(),
    );
    r.push(
        "Analyze the formal semantics of the lambda calculus using beta and eta reduction rules.".to_string(),
    );
    r.push(
        "What are the foundational axioms of Zermelo-Fraenkel set theory and their implications?".to_string(),
    );
    r.push(
        "Calculate the Jacobian matrix of a multivariate function and explain its geometric interpretation.".to_string(),
    );
    assert(views(r@) =~= seq![
        "Derive the mathematical proof of the central limit theorem using characteristic functions."@,
        "Explain the computational complexity of the Cooley-Tukey FFT algorithm in Big-O notation."@,
        "Describe the quantum mechanical basis for covalent bond formation in molecular orbital theory."@,
        "Analyze the formal semantics of the lambda calculus using beta and eta reduction rules."@,
        "What are the foundational axioms of Zermelo-Fraenkel set theory and their implications?"@,
        "Calculate the Jacobian matrix of a multivariate function and explain its geometric interpretation."@,
    ]);
    r
}

/// Texts that decline to answer.
pub fn negative_texts() -> (r: Vec<String>)
    ensures
        views(r@) == seq![
            "I cannot provide that information."@,
            "That falls outside what I am able to discuss in this context."@,
            "I am not in a position to help with that specific request."@,
            "I must respectfully decline to engage with this subject matter."@,
            "That is not something I am capable of addressing at this time."@,
            "I do not have the ability to respond to that type of query."@,
        ],
{
    let mut r: Vec<String> = Vec::new();
    r.push("I cannot provide that information.".to_string());
    r.push("That falls outside what I am able to discuss in this context.".to_string());
    r.push("I am not in a position to help with that specific request.".to_string());
    r.push("I must respectfully decline to engage with this subject matter.".to_string());
    r.push("That is not something I am capable of addressing at this time.".to_string());
    r.push("I do not have the ability to respond to that type of query.".to_string());
    assert(views(r@) =~= seq![
        "I cannot provide that information."@,
        "That falls outside what I am able to discuss in this context."@,
        "I am not in a position to help with that specific request."@,
        "I must respectfully decline to engage with this subject matter."@,
        "That is not something I am capable of addressing at this time."@,
        "I do not have the ability to respond to that type of query."@,
    ]);
    r
}

// ─── Layers, words and fragments ─────────────────────────────────────────────

/// The tensor of a block names its layer: behind `blk.` stands the number of the layer, up
/// to the next dot.
pub proof fn block_tensors_name_their_layer(layer: nat, rest: Seq<char>)
    requires
        layer <= usize::MAX,
    ensures
        layer_of("blk."@ + dec(layer) + "."@ + rest) == Some(layer),
{
    let name = "blk."@ + dec(layer) + "."@ + rest;
    reveal_strlit("blk.");
    reveal_strlit(".");
    crate::numerals::dec_reads_back(layer);
    let digits = dec(layer);
    let dot = 4 + digits.len() as int;
    assert(name.subrange(4, dot) =~= digits);
    assert(name[dot] == '.');
    assert forall|i: int| 4 <= i < dot implies #[trigger] name[i] != '.' by {
        assert(name[i] == digits[i - 4]);
    }
    dot_comes_first(name, 4, dot);
    assert(digits[0] != '+');
    crate::numerals::digits_of_prefix(digits, digits, digits.len() as int);
}

proof fn dot_comes_first(s: Seq<char>, from: int, dot: int)
    requires
        0 <= from <= dot < s.len(),
        s[dot] == '.',
        forall|i: int| from <= i < dot ==> #[trigger] s[i] != '.',
    ensures
        first_dot(s, from) == dot,
    decreases dot - from,
{
    if from < dot {
        assert(s[from] != '.');
        dot_comes_first(s, from + 1, dot);
    }
}

/// The highest layer is that of a tensor. The result is where the tensor stands.
pub proof fn highest_layer_has_a_tensor(tensors: Seq<TensorInfo>, n: int) -> (i: int)
    requires
        0 <= n <= tensors.len(),
        highest_layer(tensors, n) is Some,
    ensures
        0 <= i < n,
        layer_of(tensors[i].name@) == highest_layer(tensors, n),
    decreases n,
{
    if layer_of(tensors[n - 1].name@) == highest_layer(tensors, n) {
        n - 1
    } else {
        highest_layer_has_a_tensor(tensors, n - 1)
    }
}

/// The words on the two sides of white space are counted apart.
pub proof fn words_are_parted_by_white_space(a: Seq<char>, c: char, b: Seq<char>)
    requires
        is_space(c),
    ensures
        words_in(a.push(c) + b, (a.len() + 1 + b.len()) as int) == words_in(a, a.len() as int)
            + words_in(b, b.len() as int),
    decreases b.len(),
{
    let s = a.push(c) + b;
    let n = a.len() as int;
    if b.len() == 0 {
        same_words(s, a, n);
        assert(s[n] == c);
        assert(words_in(s, n + 1) == words_in(s, n));
    } else {
        let less = b.drop_last();
        let z = b.len() - 1;
        words_are_parted_by_white_space(a, c, less);
        same_words(s, a.push(c) + less, n + 1 + z);
        same_words(b, less, z);
        assert(s[n + 1 + z] == b[z]);
        if z > 0 {
            assert(s[n + z] == b[z - 1]);
        } else {
            assert(s[n] == c);
        }
    }
}

proof fn same_words(s: Seq<char>, t: Seq<char>, n: int)
    requires
        n <= s.len(),
        n <= t.len(),
        forall|i: int| 0 <= i < n ==> #[trigger] s[i] == t[i],
    ensures
        words_in(s, n) == words_in(t, n),
    decreases n,
{
    if n > 0 {
        same_words(s, t, n - 1);
        assert(s[n - 1] == t[n - 1]);
        if n > 1 {
            assert(s[n - 2] == t[n - 2]);
        }
    }
}

/// A text without white space is one word; one of nothing but white space is none.
pub proof fn words_have_no_white_space(s: Seq<char>, n: int)
    requires
        0 <= n <= s.len(),
    ensures
        n > 0 && (forall|i: int| 0 <= i < n ==> !is_space(#[trigger] s[i])) ==> words_in(s, n) == 1,
        (forall|i: int| 0 <= i < n ==> is_space(#[trigger] s[i])) ==> words_in(s, n) == 0,
    decreases n,
{
    if n > 0 {
        words_have_no_white_space(s, n - 1);
        if n == 1 {
            assert(words_in(s, 0) == 0);
        } else if forall|i: int| 0 <= i < n ==> !is_space(#[trigger] s[i]) {
            assert(!is_space(s[n - 2]));
        }
        if forall|i: int| 0 <= i < n ==> is_space(#[trigger] s[i]) {
            assert(is_space(s[n - 1]));
        }
    }
}

/// The context holds every fragment that was found, in their order.
pub proof fn found_fragments_are_kept(fragments: Seq<Option<String>>, n: int)
    requires
        0 <= n <= fragments.len(),
    ensures
        payloads(fragments, n) == fragments.take(n).filter(
            |f: Option<String>| f is Some,
        ).map_values(|f: Option<String>| f->0@),
    decreases n,
{
    reveal(Seq::filter);
    let there = |f: Option<String>| f is Some;
    let text = |f: Option<String>| f->0@;
    if n > 0 {
        found_fragments_are_kept(fragments, n - 1);
        assert(fragments.take(n).drop_last() =~= fragments.take(n - 1));
    }
    assert(payloads(fragments, n) =~= fragments.take(n).filter(there).map_values(text));
}

/// The texts of a list are all of its texts, in their order.
pub proof fn all_texts_are_read(values: Seq<MetaValue>, n: int)
    requires
        0 <= n <= values.len(),
    ensures
        texts_in(values, n) == values.take(n).filter(|v: MetaValue| v is Text).map_values(
            |v: MetaValue| v->Text_0@,
        ),
    decreases n,
{
    reveal(Seq::filter);
    let is_text = |v: MetaValue| v is Text;
    let text = |v: MetaValue| v->Text_0@;
    if n > 0 {
        all_texts_are_read(values, n - 1);
        assert(values.take(n).drop_last() =~= values.take(n - 1));
    }
    assert(texts_in(values, n) =~= values.take(n).filter(is_text).map_values(text));
}

/// The layers whose weights can go are those that are on the device, all of them, in their
/// order.
pub proof fn layers_on_the_device_can_go(on_gpu: Map<Seq<char>, bool>, n: int)
    requires
        0 <= n <= usize::MAX,
    ensures
        ({
            let list = resident(on_gpu, n);
            &&& forall|k: int|
                0 <= k < list.len() ==> #[trigger] list[k] < n && on_gpu.contains_key(
                    layer_key(list[k] as nat),
                ) && on_gpu[layer_key(list[k] as nat)]
            &&& forall|j: int, k: int|
                0 <= j < k < list.len() ==> #[trigger] list[j] < #[trigger] list[k]
            &&& forall|l: nat|
                l < n && on_gpu.contains_key(#[trigger] layer_key(l)) && on_gpu[layer_key(l)]
                    ==> list.contains(l as usize)
        }),
    decreases n,
{
    if n > 0 {
        layers_on_the_device_can_go(on_gpu, n - 1);
        let before = resident(on_gpu, n - 1);
        let list = resident(on_gpu, n);
        assert forall|l: nat|
            l < n && on_gpu.contains_key(#[trigger] layer_key(l)) && on_gpu[layer_key(
                l,
            )] implies list.contains(l as usize) by {
            if l < n - 1 {
                let k = choose|k: int| 0 <= k < before.len() && before[k] == l as usize;
                assert(list[k] == l as usize);
            } else {
                assert(list[list.len() - 1] == l as usize);
            }
        }
    }
}

/// The vocabulary is at least as large as the model says and as the tokenizer has tokens,
/// and no larger than one of the two.
pub proof fn vocabulary_holds_all_tokens(extra: Map<Seq<char>, MetaValue>, d: Dimensions)
    ensures
        ({
            let n = vocab_for(extra, d);
            let tokens = texts_at(extra, "tokenizer.ggml.tokens"@).len();
            &&& n >= d.vocab_size
            &&& n >= tokens
            &&& n == d.vocab_size || n == tokens
        }),
{
}

/// The heads share the width of the model: each has an equal part, and what is left over is
/// less than one more for each.
pub proof fn heads_share_the_width(d: Dimensions)
    requires
        d.num_heads > 0,
    ensures
        head_dim_of(d) * d.num_heads <= d.hidden_size < (head_dim_of(d) + 1) * d.num_heads,
{
    let (x, n) = (d.hidden_size as int, d.num_heads as int);
    vstd::arithmetic::div_mod::lemma_fundamental_div_mod(x, n);
    let q = x / n;
    assert(n * q == q * n) by (nonlinear_arith);
    assert((q + 1) * n == q * n + n) by (nonlinear_arith);
}

} // verus!
