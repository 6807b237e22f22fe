//! Turning text into tokens and back.
//!
//! Byte-pair encoding is done by the `tokenizers` crate. What is decided here is
//! how a vocabulary out of a model file becomes a tokenizer, and what stands for
//! a text that the tokenizer leaves empty.

use vstd::prelude::*;

use crate::description::{check_treatable, treatable};
use crate::errors::NodeStorError;
use crate::json::parsed;
use crate::named_map::NamedMap;
use crate::text::{from_chars, to_chars, views};

verus! {

// ─── The tokenizers crate ────────────────────────────────────────────────────

/// `tokenizers::Tokenizer`, a tokenizer. What it was made of is named by
/// `made_of`.
#[verifier::external_type_specification]
#[verifier::external_body]
pub struct ExTokenizer(tokenizers::Tokenizer);

/// `tokenizers::models::bpe::BPE`, a model of byte-pair encoding. What it was
/// made of is named by `model_of`.
#[verifier::external_type_specification]
#[verifier::external_body]
pub struct ExBpe(tokenizers::models::bpe::BPE);

/// `tokenizers::DecoderWrapper`, a step that decodes. What it does is named by
/// `step_of`.
#[verifier::external_type_specification]
#[verifier::external_body]
pub struct ExDecoder(tokenizers::DecoderWrapper);

/// The settings of a byte-level step: whether a space goes in front, whether
/// offsets are trimmed, whether the text is split by the usual pattern.
pub struct ByteLevelStep {
    pub add_prefix_space: bool,
    pub trim_offsets: bool,
    pub use_regex: bool,
}

/// What a model of byte-pair encoding is made of.
pub struct BpeParts {
    pub vocab: Map<Seq<char>, u32>,
    pub merges: Seq<(Seq<char>, Seq<char>)>,
}

/// What a tokenizer is made of.
pub enum TokenizerParts {
    /// Read from a description.
    Read { json: Seq<char> },
    /// Put together from a model.
    Built {
        model: BpeParts,
        splitter: Option<ByteLevelStep>,
        decoder: Option<ByteLevelStep>,
        specials: Seq<Seq<char>>,
    },
}

/// What a tokenizer was made of.
pub uninterp spec fn made_of(t: tokenizers::Tokenizer) -> TokenizerParts;

/// What a model was made of.
pub uninterp spec fn model_of(m: tokenizers::models::bpe::BPE) -> BpeParts;

/// A text describes a tokenizer.
pub uninterp spec fn describes(json: Seq<char>) -> bool;

/// The longest encoding that a tokenizer gives and the overlap of its parts, if
/// it cuts encodings.
pub uninterp spec fn truncation(parts: TokenizerParts) -> Option<(usize, usize)>;

/// What encoding a text can give: the tokens, or nothing where it fails. A
/// description may ask for steps that draw at random; there are then several.
pub uninterp spec fn encodings(parts: TokenizerParts, text: Seq<char>) -> Set<Option<Seq<u32>>>;

/// What decoding tokens can give: the text, or nothing where it fails. A
/// vocabulary that gives several texts one token leaves open which of them stands
/// for it; there are then several.
pub uninterp spec fn decodings(parts: TokenizerParts, ids: Seq<u32>, skip_special: bool) -> Set<
    Option<Seq<char>>,
>;

/// The tokenizer was put together from a vocabulary in which every token stands
/// for one text.
pub open spec fn unambiguous(parts: TokenizerParts) -> bool {
    match parts {
        TokenizerParts::Built { model, .. } => forall|a: Seq<char>, b: Seq<char>|
            #![trigger model.vocab[a], model.vocab[b]]
            model.vocab.contains_key(a) && model.vocab.contains_key(b) && model.vocab[a]
                == model.vocab[b] ==> a == b,
        TokenizerParts::Read { .. } => false,
    }
}

/// What a step that decodes does, as far as it matters whether it can treat every
/// token.
pub enum DecoderStep {
    /// It replaces the ends of words. It cannot treat an empty list of tokens.
    Suffix,
    /// It takes up to `stop` characters off the end of a token. It cannot treat a
    /// shorter token.
    Strip { stop: usize },
    /// It does several steps in turn.
    Several(Seq<tokenizers::DecoderWrapper>),
    /// It treats every list of tokens.
    Plain,
}

/// What a step that decodes does.
pub uninterp spec fn step_of(d: tokenizers::DecoderWrapper) -> DecoderStep;

/// The step by which a tokenizer decodes, if it has one.
pub uninterp spec fn decoder_in(t: tokenizers::Tokenizer) -> Option<tokenizers::DecoderWrapper>;

/// How deep steps may be nested that are looked at.
pub const STEP_DEPTH: u32 = 8;

/// The step, with `depth` levels of steps in it at most, treats every list of
/// tokens.
pub open spec fn treats_all(d: tokenizers::DecoderWrapper, depth: nat) -> bool
    decreases depth,
{
    match step_of(d) {
        DecoderStep::Suffix => false,
        DecoderStep::Strip { stop } => stop == 0,
        DecoderStep::Several(s) => depth > 0 && forall|i: int|
            0 <= i < s.len() ==> treats_all(#[trigger] s[i], (depth - 1) as nat),
        DecoderStep::Plain => true,
    }
}

/// The tokenizer decodes every list of tokens.
pub open spec fn decodes_all(t: tokenizers::Tokenizer) -> bool {
    match decoder_in(t) {
        Some(d) => treats_all(d, STEP_DEPTH as nat),
        None => true,
    }
}

/// `<tokenizers::Tokenizer as FromStr>::from_str` reads the description of a
/// tokenizer. Whether it can depends on the text alone. Of the error only that
/// there is one is claimed: which of several missing fields it names is left
/// open there. Only descriptions are read whose parts are of kinds that do not make
/// it abort, at once or later on some text.
#[verifier::external_body]
fn read_tokenizer(json: &str) -> (r: Result<tokenizers::Tokenizer, String>)
    requires
        treatable(json@),
        parsed(json@) is Ok,
    ensures
        match r {
            Ok(t) => describes(json@) && made_of(t) == (TokenizerParts::Read { json: json@ }),
            Err(_) => !describes(json@),
        },
{
    json.parse::<tokenizers::Tokenizer>().map_err(|e| e.to_string())
}

/// A description is read: it is JSON and describes a tokenizer.
pub open spec fn reads(json: Seq<char>) -> bool {
    parsed(json) is Ok && describes(json)
}

/// The tokenizer treats every text: it was put together from a model, or read from
/// a description that does not make encoding abort.
pub open spec fn treats_texts(parts: TokenizerParts) -> bool {
    match parts {
        TokenizerParts::Read { json } => treatable(json) && parsed(json) is Ok,
        TokenizerParts::Built { .. } => true,
    }
}

/// The texts are in the vocabulary of the model.
pub open spec fn all_known(parts: TokenizerParts, texts: Seq<Seq<char>>) -> bool {
    match parts {
        TokenizerParts::Read { .. } => false,
        TokenizerParts::Built { model, .. } => forall|i: int|
            0 <= i < texts.len() ==> model.vocab.contains_key(#[trigger] texts[i]),
    }
}

/// The views of pairs of strings.
pub open spec fn pair_views(v: Seq<(String, String)>) -> Seq<(Seq<char>, Seq<char>)> {
    v.map_values(|p: (String, String)| (p.0@, p.1@))
}

/// The first text that a merge from `from` on needs and the vocabulary lacks.
pub open spec fn first_missing(
    vocab: Map<Seq<char>, u32>,
    merges: Seq<(Seq<char>, Seq<char>)>,
    from: int,
) -> Option<Seq<char>>
    decreases merges.len() - from,
{
    if from < 0 || from >= merges.len() {
        None
    } else {
        let (a, b) = merges[from];
        if !vocab.contains_key(a) {
            Some(a)
        } else if !vocab.contains_key(b) {
            Some(b)
        } else if !vocab.contains_key(a + b) {
            Some(a + b)
        } else {
            first_missing(vocab, merges, from + 1)
        }
    }
}

/// `tokenizers::models::bpe::BpeBuilder::build` makes a model of a vocabulary and
/// its merges. It fails on the first merge that names a token, or gives one, that
/// is not in the vocabulary, and says which.
#[verifier::external_body]
fn build_model(vocab: NamedMap<u32>, merges: Vec<(String, String)>) -> (r: Result<
    tokenizers::models::bpe::BPE,
    String,
>)
    requires
        vocab.wf(),
    ensures
        match r {
            Ok(m) => first_missing(vocab@, pair_views(merges@), 0) is None && model_of(m) == (
            BpeParts { vocab: vocab@, merges: pair_views(merges@) }),
            Err(e) => first_missing(vocab@, pair_views(merges@), 0) is Some && e@ == "Token `"@
                + first_missing(vocab@, pair_views(merges@), 0)->0 + "` out of vocabulary"@,
        },
{
    tokenizers::models::bpe::BPE::builder()
        .vocab_and_merges(vocab.entries.into_iter().collect(), merges)
        .build()
        .map_err(|e| e.to_string())
}

/// `tokenizers::Tokenizer::new` makes a tokenizer of a model, without any other
/// step, that does not cut encodings.
#[verifier::external_body]
fn tokenizer_of(model: tokenizers::models::bpe::BPE) -> (t: tokenizers::Tokenizer)
    ensures
        made_of(t) == (TokenizerParts::Built {
            model: model_of(model),
            splitter: None,
            decoder: None,
            specials: Seq::empty(),
        }),
        truncation(made_of(t)) is None,
        decoder_in(t) is None,
{
    tokenizers::Tokenizer::new(model)
}

/// The same tokenizer with a byte-level step that splits texts.
pub open spec fn split_by(parts: TokenizerParts, step: ByteLevelStep) -> TokenizerParts {
    match parts {
        TokenizerParts::Built { model, splitter, decoder, specials } => TokenizerParts::Built {
            model,
            splitter: Some(step),
            decoder,
            specials,
        },
        p => p,
    }
}

/// The same tokenizer with a byte-level step that decodes.
pub open spec fn decoded_by(parts: TokenizerParts, step: ByteLevelStep) -> TokenizerParts {
    match parts {
        TokenizerParts::Built { model, splitter, decoder, specials } => TokenizerParts::Built {
            model,
            splitter,
            decoder: Some(step),
            specials,
        },
        p => p,
    }
}

/// The same tokenizer with more special tokens.
pub open spec fn with_specials(parts: TokenizerParts, more: Seq<Seq<char>>) -> TokenizerParts {
    match parts {
        TokenizerParts::Built { model, splitter, decoder, specials } => TokenizerParts::Built {
            model,
            splitter,
            decoder,
            specials: specials + more,
        },
        p => p,
    }
}

/// `TokenizerImpl::with_pre_tokenizer` sets the step that splits texts, here a
/// byte-level one. Nothing else changes.
#[verifier::external_body]
fn set_splitter(
    t: &mut tokenizers::Tokenizer,
    add_prefix_space: bool,
    trim_offsets: bool,
    use_regex: bool,
)
    requires
        made_of(*old(t)) is Built,
    ensures
        made_of(*final(t)) == split_by(
            made_of(*old(t)),
            (ByteLevelStep { add_prefix_space, trim_offsets, use_regex }),
        ),
        truncation(made_of(*final(t))) == truncation(made_of(*old(t))),
        decoder_in(*final(t)) == decoder_in(*old(t)),
{
    t.with_pre_tokenizer(
        tokenizers::pre_tokenizers::byte_level::ByteLevel::new(
            add_prefix_space,
            trim_offsets,
            use_regex,
        ),
    );
}

/// `TokenizerImpl::with_decoder` sets the step that decodes, here a byte-level
/// one. Nothing else changes.
#[verifier::external_body]
fn set_decoder(
    t: &mut tokenizers::Tokenizer,
    add_prefix_space: bool,
    trim_offsets: bool,
    use_regex: bool,
)
    requires
        made_of(*old(t)) is Built,
    ensures
        made_of(*final(t)) == decoded_by(
            made_of(*old(t)),
            (ByteLevelStep { add_prefix_space, trim_offsets, use_regex }),
        ),
        truncation(made_of(*final(t))) == truncation(made_of(*old(t))),
        match decoder_in(*final(t)) {
            Some(d) => step_of(d) is Plain,
            None => false,
        },
{
    t.with_decoder(
        tokenizers::pre_tokenizers::byte_level::ByteLevel::new(
            add_prefix_space,
            trim_offsets,
            use_regex,
        ),
    );
}

/// `TokenizerImpl::add_special_tokens` makes texts of the vocabulary special
/// tokens, in their order. Nothing else changes. Texts outside the vocabulary
/// are left out: the numbers made up for them may run out.
#[verifier::external_body]
fn add_specials(t: &mut tokenizers::Tokenizer, specials: &Vec<String>)
    requires
        all_known(made_of(*old(t)), views(specials@)),
    ensures
        made_of(*final(t)) == with_specials(made_of(*old(t)), views(specials@)),
        truncation(made_of(*final(t))) == truncation(made_of(*old(t))),
        decoder_in(*final(t)) == decoder_in(*old(t)),
{
    let tokens: Vec<tokenizers::AddedToken> = specials
        .iter()
        .map(|s| tokenizers::AddedToken::from(s.clone(), true))
        .collect();
    t.add_special_tokens(&tokens);
}

/// `TokenizerImpl::get_truncation` gives the settings by which encodings are cut:
/// the longest length and the overlap.
#[verifier::external_body]
fn truncation_of(t: &tokenizers::Tokenizer) -> (r: Option<(usize, usize)>)
    ensures
        r == truncation(made_of(*t)),
{
    t.get_truncation().map(|p| (p.max_length, p.stride))
}

/// Encodings can be cut: parts overlap by less than their length.
pub open spec fn cuts_well(parts: TokenizerParts) -> bool {
    match truncation(parts) {
        Some((length, overlap)) => length == 0 || overlap < length,
        None => true,
    }
}

/// `TokenizerImpl::encode` gives the tokens of a text, without special ones
/// around it. What it gives is one of the encodings that the tokenizer and the
/// text allow; which one, where a description asks for chance, is left open. A
/// tokenizer that was put together from a model allows one only.
#[verifier::external_body]
fn encode_text(t: &tokenizers::Tokenizer, text: &str) -> (r: Result<Vec<u32>, String>)
    requires
        cuts_well(made_of(*t)),
        treats_texts(made_of(*t)),
    ensures
        encodings(made_of(*t), text@).contains(
            match r {
                Ok(ids) => Some(ids@),
                Err(_) => None,
            },
        ),
        made_of(*t) is Built ==> encodings(made_of(*t), text@) == set![
            match r {
                Ok(ids) => Some(ids@),
                Err(_) => None,
            },
        ],
{
    t.encode(text, false).map(|e| e.get_ids().to_vec()).map_err(|e| e.to_string())
}

/// The view of a text, where there is one.
pub open spec fn text_view(text: Option<String>) -> Option<Seq<char>> {
    match text {
        Some(s) => Some(s@),
        None => None,
    }
}

/// What a step that decodes does.
enum StepKind<'a> {
    Suffix,
    Strip { stop: usize },
    Several(&'a [tokenizers::DecoderWrapper]),
    Plain,
}

/// `tokenizers::DecoderWrapper` tells what kind of step a decoder is; its
/// `Sequence::get_decoders` gives the steps of a sequence.
#[verifier::external_body]
fn step_kind<'a>(d: &'a tokenizers::DecoderWrapper) -> (k: StepKind<'a>)
    ensures
        match k {
            StepKind::Suffix => step_of(*d) == DecoderStep::Suffix,
            StepKind::Strip { stop } => step_of(*d) == (DecoderStep::Strip { stop }),
            StepKind::Several(s) => step_of(*d) == DecoderStep::Several(s@),
            StepKind::Plain => step_of(*d) == DecoderStep::Plain,
        },
{
    match d {
        tokenizers::DecoderWrapper::BPE(_) => StepKind::Suffix,
        tokenizers::DecoderWrapper::Strip(s) => StepKind::Strip { stop: s.stop },
        tokenizers::DecoderWrapper::Sequence(s) => StepKind::Several(s.get_decoders()),
        tokenizers::DecoderWrapper::ByteLevel(_) => StepKind::Plain,
        tokenizers::DecoderWrapper::WordPiece(_) => StepKind::Plain,
        tokenizers::DecoderWrapper::Metaspace(_) => StepKind::Plain,
        tokenizers::DecoderWrapper::CTC(_) => StepKind::Plain,
        tokenizers::DecoderWrapper::Replace(_) => StepKind::Plain,
        tokenizers::DecoderWrapper::Fuse(_) => StepKind::Plain,
        tokenizers::DecoderWrapper::ByteFallback(_) => StepKind::Plain,
    }
}

/// `TokenizerImpl::get_decoder` gives the step by which a tokenizer decodes.
#[verifier::external_body]
fn decoder_of(t: &tokenizers::Tokenizer) -> (r: Option<&tokenizers::DecoderWrapper>)
    ensures
        match r {
            Some(d) => decoder_in(*t) == Some(*d),
            None => decoder_in(*t) is None,
        },
{
    t.get_decoder()
}

proof fn parts_treat_all(d: tokenizers::DecoderWrapper, depth: nat, i: int)
    requires
        treats_all(d, depth),
        step_of(d) is Several,
        0 <= i < step_of(d)->Several_0.len(),
    ensures
        depth > 0,
        treats_all(step_of(d)->Several_0[i], (depth - 1) as nat),
{
    let s = step_of(d)->Several_0;
    assert(forall|k: int| 0 <= k < s.len() ==> treats_all(#[trigger] s[k], (depth - 1) as nat));
}

fn check_treats_all(d: &tokenizers::DecoderWrapper, depth: u32) -> (b: bool)
    ensures
        b == treats_all(*d, depth as nat),
    decreases depth,
{
    match step_kind(d) {
        StepKind::Suffix => false,
        StepKind::Strip { stop } => stop == 0,
        StepKind::Plain => true,
        StepKind::Several(s) => {
            if depth == 0 {
                return false;
            }
            let mut i: usize = 0;
            while i < s.len()
                invariant
                    depth > 0,
                    i <= s@.len(),
                    step_of(*d) == DecoderStep::Several(s@),
                    forall|j: int| 0 <= j < i ==> treats_all(#[trigger] s@[j], (depth - 1) as nat),
                decreases s@.len() - i,
            {
                let fine = check_treats_all(&s[i], depth - 1);
                if !fine {
                    proof {
                        if treats_all(*d, depth as nat) {
                            parts_treat_all(*d, depth as nat, i as int);
                        }
                    }
                    return false;
                }
                i = i + 1;
            }
            true
        },
    }
}

/// `TokenizerImpl::decode` gives the text of tokens. It depends on the
/// tokenizer, the tokens and whether special ones are skipped; which text stands
/// for a token that has several is left open. A decoder with a step that cannot
/// treat every list of tokens may abort there; it is left out.
#[verifier::external_body]
fn decode_ids(t: &tokenizers::Tokenizer, ids: &[u32], skip_special: bool) -> (r: Option<String>)
    requires
        decodes_all(*t),
    ensures
        decodings(made_of(*t), ids@, skip_special).contains(text_view(r)),
        unambiguous(made_of(*t)) ==> decodings(made_of(*t), ids@, skip_special) == set![
            text_view(r),
        ],
{
    t.decode(ids, skip_special).ok()
}

// ─── Vocabularies ────────────────────────────────────────────────────────────

/// The vocabulary of the first `n` tokens: each stands for its index, and of
/// equal ones the last counts.
pub open spec fn vocab_of(tokens: Seq<Seq<char>>, n: int) -> Map<Seq<char>, u32>
    decreases n,
{
    if n <= 0 {
        Map::empty()
    } else {
        vocab_of(tokens, n - 1).insert(tokens[n - 1], (n - 1) as u32)
    }
}

/// Every text is in the vocabulary.
proof fn texts_are_known(tokens: Seq<Seq<char>>, n: int, k: int)
    requires
        0 <= k < n <= tokens.len(),
    ensures
        vocab_of(tokens, n).contains_key(tokens[k]),
    decreases n,
{
    if k < n - 1 {
        texts_are_known(tokens, n - 1, k);
    }
}

/// Every token of a vocabulary stands for the text at its index, as far as the
/// indices fit in a token.
proof fn tokens_have_one_text(tokens: Seq<Seq<char>>, n: int)
    requires
        0 <= n <= tokens.len(),
        n <= 0x1_0000_0000,
    ensures
        forall|a: Seq<char>| #[trigger]
            vocab_of(tokens, n).contains_key(a) ==> vocab_of(tokens, n)[a] < n && tokens[vocab_of(
                tokens,
                n,
            )[a] as int] == a,
    decreases n,
{
    if n > 0 {
        tokens_have_one_text(tokens, n - 1);
        let before = vocab_of(tokens, n - 1);
        assert forall|a: Seq<char>| #[trigger] vocab_of(tokens, n).contains_key(a) implies vocab_of(
            tokens,
            n,
        )[a] < n && tokens[vocab_of(tokens, n)[a] as int] == a by {
            if a != tokens[n - 1] {
                assert(before.contains_key(a));
            }
        }
    }
}

/// Where the first space of a text is, or its length.
pub open spec fn first_space(s: Seq<char>, from: int) -> int
    decreases s.len() - from,
{
    if from < 0 || from >= s.len() || s[from] == ' ' {
        from
    } else {
        first_space(s, from + 1)
    }
}

/// The two sides of a merge: what stands before its first space and after it. A
/// text without a space is none.
pub open spec fn merge_pair(s: Seq<char>) -> Option<(Seq<char>, Seq<char>)> {
    let i = first_space(s, 0);
    if i < s.len() {
        Some((s.subrange(0, i), s.subrange(i + 1, s.len() as int)))
    } else {
        None
    }
}

/// The merges among the first `n` texts.
pub open spec fn merge_pairs(merges: Seq<Seq<char>>, n: int) -> Seq<(Seq<char>, Seq<char>)>
    decreases n,
{
    if n <= 0 {
        Seq::empty()
    } else {
        match merge_pair(merges[n - 1]) {
            Some(p) => merge_pairs(merges, n - 1).push(p),
            None => merge_pairs(merges, n - 1),
        }
    }
}

/// The token of an optional id, as a sequence of none or one.
pub open spec fn token_at(tokens: Seq<Seq<char>>, id: Option<u32>) -> Seq<Seq<char>> {
    match id {
        Some(i) => if (i as int) < tokens.len() {
            seq![tokens[i as int]]
        } else {
            Seq::empty()
        },
        None => Seq::empty(),
    }
}

/// The two sides of a merge.
pub fn split_merge(s: &str) -> (r: Option<(String, String)>)
    ensures
        match (r, merge_pair(s@)) {
            (Some(p), Some(q)) => (p.0@, p.1@) == q,
            (None, None) => true,
            _ => false,
        },
{
    let v = to_chars(s);
    let n: usize = v.len();
    let mut i: usize = 0;
    while i < n && v[i] != ' '
        invariant
            v@ == s@,
            n == v@.len(),
            i <= n,
            first_space(s@, 0) == first_space(s@, i as int),
        decreases n - i,
    {
        i = i + 1;
    }
    if i < n {
        Some((from_chars(&v, 0, i), from_chars(&v, i + 1, n)))
    } else {
        None
    }
}

fn make_vocab(tokens: &Vec<String>) -> (m: NamedMap<u32>)
    ensures
        m.wf(),
        m@ == vocab_of(views(tokens@), tokens@.len() as int),
{
    let mut m: NamedMap<u32> = NamedMap::new();
    let mut i: usize = 0;
    while i < tokens.len()
        invariant
            i <= tokens@.len(),
            m.wf(),
            m@ == vocab_of(views(tokens@), i as int),
        decreases tokens@.len() - i,
    {
        m.insert(tokens[i].clone(), i as u32);
        i = i + 1;
    }
    m
}

fn make_pairs(merges: &Vec<String>) -> (r: Vec<(String, String)>)
    ensures
        pair_views(r@) == merge_pairs(views(merges@), merges@.len() as int),
{
    let mut r: Vec<(String, String)> = Vec::new();
    let mut i: usize = 0;
    assert(pair_views(r@) =~= merge_pairs(views(merges@), 0));
    while i < merges.len()
        invariant
            i <= merges@.len(),
            pair_views(r@) == merge_pairs(views(merges@), i as int),
        decreases merges@.len() - i,
    {
        let ghost before = r@;
        match split_merge(merges[i].as_str()) {
            Some(p) => {
                r.push(p);
                assert(pair_views(r@) =~= pair_views(before).push((p.0@, p.1@)));
            },
            None => {},
        }
        i = i + 1;
    }
    r
}

fn push_token(out: &mut Vec<String>, tokens: &Vec<String>, id: Option<u32>)
    ensures
        views(final(out)@) == views(old(out)@) + token_at(views(tokens@), id),
{
    let ghost before = out@;
    if let Some(i) = id {
        if (i as usize) < tokens.len() {
            out.push(tokens[i as usize].clone());
        }
    }
    assert(views(out@) =~= views(before) + token_at(views(tokens@), id));
}

fn copy_strings(v: &Vec<String>) -> (r: Vec<String>)
    ensures
        views(r@) == views(v@),
        r@.len() == v@.len(),
{
    let mut r: Vec<String> = Vec::new();
    let mut i: usize = 0;
    while i < v.len()
        invariant
            i <= v@.len(),
            r@.len() == i,
            forall|j: int| 0 <= j < i ==> (#[trigger] r@[j])@ == v@[j]@,
        decreases v@.len() - i,
    {
        r.push(v[i].clone());
        i = i + 1;
    }
    assert(views(r@) =~= views(v@));
    r
}

// ─── Decoding by the vocabulary ──────────────────────────────────────────────

/// The marks that stand for a space become spaces.
pub open spec fn unmarked(s: Seq<char>) -> Seq<char> {
    s.map_values(
        |c: char|
            if c == 'Ġ' || c == '▁' {
                ' '
            } else {
                c
            },
    )
}

/// The value of a hexadecimal digit, or 16.
pub open spec fn hex_value(c: char) -> int {
    if '0' <= c <= '9' {
        c as int - '0' as int
    } else if 'a' <= c <= 'f' {
        c as int - 'a' as int + 10
    } else if 'A' <= c <= 'F' {
        c as int - 'A' as int + 10
    } else {
        16
    }
}

/// The value of the first `n` characters as hexadecimal digits, if it is that of
/// a byte.
pub open spec fn hex_prefix(s: Seq<char>, n: int) -> Option<int>
    decreases n,
{
    if n <= 0 {
        Some(0int)
    } else {
        match hex_prefix(s, n - 1) {
            Some(v) => if hex_value(s[n - 1]) < 16 && v * 16 + hex_value(s[n - 1]) < 256 {
                Some(v * 16 + hex_value(s[n - 1]))
            } else {
                None
            },
            None => None,
        }
    }
}

/// The byte that a hexadecimal numeral stands for. A plus sign may stand in
/// front.
pub open spec fn hex_byte(s: Seq<char>) -> Option<int> {
    if s.len() == 0 {
        None
    } else if s[0] == '+' && s.len() > 1 {
        hex_prefix(s.skip(1), s.len() - 1)
    } else {
        hex_prefix(s, s.len() as int)
    }
}

/// A text has the form of a byte: `<0x`, a numeral and `>`.
pub open spec fn is_byte_form(s: Seq<char>) -> bool {
    s.len() >= 4 && s[0] == '<' && s[1] == '0' && s[2] == 'x' && s.last() == '>'
}

/// The text of a token. A byte is its ASCII character, or nothing if it has
/// none.
pub open spec fn piece(token: Seq<char>) -> Seq<char> {
    let s = unmarked(token);
    if is_byte_form(s) {
        match hex_byte(s.subrange(3, s.len() - 1)) {
            Some(b) => if b < 128 {
                seq![b as char]
            } else {
                Seq::empty()
            },
            None => s,
        }
    } else {
        s
    }
}

/// A token has the form of a special one.
pub open spec fn is_special(token: Seq<char>) -> bool {
    token.len() > 0 && token[0] == '<' && token.last() == '>'
}

/// The texts of the first `n` tokens, one after the other. Unknown ones give
/// nothing, and special ones neither if they are skipped.
pub open spec fn pieces(
    vocab: Seq<Seq<char>>,
    ids: Seq<u32>,
    skip_special: bool,
    n: int,
) -> Seq<char>
    decreases n,
{
    if n <= 0 {
        Seq::empty()
    } else {
        let before = pieces(vocab, ids, skip_special, n - 1);
        let id = ids[n - 1] as int;
        if id >= vocab.len() || (skip_special && is_special(vocab[id])) {
            before
        } else {
            before + piece(vocab[id])
        }
    }
}

fn hex_digit(c: char) -> (v: u32)
    ensures
        v == hex_value(c),
        v <= 16,
{
    if '0' <= c && c <= '9' {
        c as u32 - '0' as u32
    } else if 'a' <= c && c <= 'f' {
        c as u32 - 'a' as u32 + 10
    } else if 'A' <= c && c <= 'F' {
        c as u32 - 'A' as u32 + 10
    } else {
        16
    }
}

proof fn hex_prefix_fails(s: Seq<char>, k: int, n: int)
    requires
        0 <= k <= n,
        hex_prefix(s, k) is None,
    ensures
        hex_prefix(s, n) is None,
    decreases n,
{
    if k < n {
        hex_prefix_fails(s, k, n - 1);
    }
}

/// The byte that a hexadecimal numeral stands for.
pub fn parse_hex_byte(v: &Vec<char>, from: usize, to: usize) -> (r: Option<u8>)
    requires
        from <= to <= v@.len(),
    ensures
        match (r, hex_byte(v@.subrange(from as int, to as int))) {
            (Some(b), Some(c)) => b == c,
            (None, None) => true,
            _ => false,
        },
{
    let ghost s = v@.subrange(from as int, to as int);
    if from == to {
        return None;
    }
    let start: usize = if v[from] == '+' && to - from > 1 {
        from + 1
    } else {
        from
    };
    let ghost d = v@.subrange(start as int, to as int);
    assert(d =~= if start > from {
        s.skip(1)
    } else {
        s
    });
    let mut value: u32 = 0;
    let mut i: usize = start;
    while i < to
        invariant
            from <= start <= i <= to <= v@.len(),
            s == v@.subrange(from as int, to as int),
            d == v@.subrange(start as int, to as int),
            value < 256,
            hex_prefix(d, i - start) == Some(value as int),
            hex_byte(s) == hex_prefix(d, to - start),
        decreases to - i,
    {
        let x: u32 = hex_digit(v[i]);
        assert(d[i - start] == v@[i as int]);
        if x >= 16 || value * 16 + x >= 256 {
            proof {
                assert(hex_prefix(d, i - start + 1) is None);
                hex_prefix_fails(d, i - start + 1, to - start);
            }
            return None;
        }
        value = value * 16 + x;
        i = i + 1;
    }
    Some(value as u8)
}

/// Appends the text of a token.
fn push_piece(out: &mut String, token: &str)
    ensures
        final(out)@ == old(out)@ + piece(token@),
{
    let ghost before = out@;
    let v = to_chars(token);
    let mut s: Vec<char> = Vec::new();
    let mut i: usize = 0;
    while i < v.len()
        invariant
            v@ == token@,
            i <= v@.len(),
            s@.len() == i,
            forall|j: int| 0 <= j < i ==> #[trigger] s@[j] == unmarked(token@)[j],
        decreases v@.len() - i,
    {
        let c: char = v[i];
        s.push(
            if c == 'Ġ' || c == '▁' {
                ' '
            } else {
                c
            },
        );
        i = i + 1;
    }
    assert(s@ =~= unmarked(token@));
    let n: usize = s.len();
    if n >= 4 && s[0] == '<' && s[1] == '0' && s[2] == 'x' && s[n - 1] == '>' {
        match parse_hex_byte(&s, 3, n - 1) {
            Some(b) => {
                if b < 128 {
                    out.push(b as char);
                    assert(out@ =~= before + piece(token@));
                } else {
                    assert(out@ =~= before + piece(token@));
                }
                return;
            },
            None => {},
        }
    }
    let text = from_chars(&s, 0, n);
    assert(s@.subrange(0, n as int) =~= s@);
    out.append(text.as_str());
}

fn check_special(token: &str) -> (b: bool)
    ensures
        b == is_special(token@),
{
    let n: usize = token.unicode_len();
    n > 0 && token.get_char(0) == '<' && token.get_char(n - 1) == '>'
}

// ─── The manager ─────────────────────────────────────────────────────────────

/// A tokenizer, with the vocabulary of the model file if it came from one.
pub struct TokenizerManager {
    pub(crate) inner: tokenizers::Tokenizer,
    pub(crate) raw_vocab: Vec<String>,
}

/// What a vocabulary out of a model file is made into.
pub open spec fn gguf_parts(
    tokens: Seq<Seq<char>>,
    merges: Seq<Seq<char>>,
    bos: Option<u32>,
    eos: Option<u32>,
    unk: Option<u32>,
) -> TokenizerParts {
    let step = ByteLevelStep { add_prefix_space: false, trim_offsets: true, use_regex: true };
    TokenizerParts::Built {
        model: BpeParts {
            vocab: vocab_of(tokens, tokens.len() as int),
            merges: merge_pairs(merges, merges.len() as int),
        },
        splitter: Some(step),
        decoder: Some(step),
        specials: token_at(tokens, bos) + token_at(tokens, eos) + token_at(tokens, unk),
    }
}

/// The text that a merge needs and the vocabulary lacks, if there is one.
pub open spec fn gguf_missing(tokens: Seq<Seq<char>>, merges: Seq<Seq<char>>) -> Option<Seq<char>> {
    first_missing(
        vocab_of(tokens, tokens.len() as int),
        merge_pairs(merges, merges.len() as int),
        0,
    )
}

impl TokenizerManager {
    /// What the tokenizer is made of.
    pub closed spec fn parts(&self) -> TokenizerParts {
        made_of(self.inner)
    }

    /// The texts of the tokens of the model file.
    pub closed spec fn vocabulary(&self) -> Seq<Seq<char>> {
        views(self.raw_vocab@)
    }

    /// The tokenizer decodes every list of tokens.
    pub closed spec fn decodes_every_list(&self) -> bool {
        decodes_all(self.inner)
    }

    #[verifier::type_invariant]
    spec fn treats_every_text(self) -> bool {
        treats_texts(made_of(self.inner))
    }

    /// Reads the description of a tokenizer.
    pub fn from_string(json_content: &str) -> (r: Result<TokenizerManager, NodeStorError>)
        requires
            treatable(json_content@),
        ensures
            match r {
                Ok(m) => reads(json_content@) && m.parts() == (TokenizerParts::Read {
                    json: json_content@,
                }) && m.vocabulary() == Seq::<Seq<char>>::empty(),
                Err(e) => !reads(json_content@) && e is IoError,
            },
    {
        match check_treatable(json_content) {
            Ok(_) => {},
            Err(e) => {
                return Err(NodeStorError::IoError(e));
            },
        }
        match read_tokenizer(json_content) {
            Ok(inner) => {
                let raw_vocab: Vec<String> = Vec::new();
                assert(views(raw_vocab@) =~= Seq::<Seq<char>>::empty());
                Ok(TokenizerManager { inner, raw_vocab })
            },
            Err(e) => Err(NodeStorError::IoError(e)),
        }
    }

    /// Reads the description of a tokenizer; nothing where it may make the
    /// tokenizer abort.
    pub fn from_string_checked(json_content: &str) -> (r: Option<
        Result<TokenizerManager, NodeStorError>,
    >)
        ensures
            match r {
                Some(Ok(m)) => treatable(json_content@) && reads(json_content@) && m.parts() == (
                TokenizerParts::Read { json: json_content@ }) && m.vocabulary() == Seq::<
                    Seq<char>,
                >::empty(),
                Some(Err(e)) => treatable(json_content@) && !reads(json_content@) && e is IoError,
                None => !treatable(json_content@),
            },
    {
        match check_treatable(json_content) {
            Ok(b) => {
                if !b {
                    return None;
                }
            },
            Err(_) => {},
        }
        Some(Self::from_string(json_content))
    }

    /// Makes a byte-level tokenizer of the vocabulary and the merges in a model
    /// file.
    pub fn from_gguf(
        tokens: &Vec<String>,
        merges: &Vec<String>,
        bos: Option<u32>,
        eos: Option<u32>,
        unk: Option<u32>,
    ) -> (r: Result<TokenizerManager, NodeStorError>)
        ensures
            match r {
                Ok(m) => {
                    &&& tokens@.len() > 0
                    &&& gguf_missing(views(tokens@), views(merges@)) is None
                    &&& m.parts() == gguf_parts(views(tokens@), views(merges@), bos, eos, unk)
                    &&& truncation(m.parts()) is None
                    &&& m.decodes_every_list()
                    &&& tokens@.len() <= 0x1_0000_0000 ==> unambiguous(m.parts())
                    &&& m.vocabulary() == views(tokens@)
                },
                Err(NodeStorError::InvalidModelFormat(e)) => tokens@.len() == 0 && e@
                    == "GGUF sem vocab de tokenizer"@,
                Err(NodeStorError::IoError(e)) => {
                    &&& tokens@.len() > 0
                    &&& gguf_missing(views(tokens@), views(merges@)) is Some
                    &&& e@ == "BPE build: "@ + ("Token `"@ + gguf_missing(views(tokens@), views(merges@))->0
                        + "` out of vocabulary"@)
                },
                _ => false,
            },
    {
        if tokens.len() == 0 {
            return Err(
                NodeStorError::InvalidModelFormat("GGUF sem vocab de tokenizer".to_string()),
            );
        }
        let model = match build_model(make_vocab(tokens), make_pairs(merges)) {
            Ok(m) => m,
            Err(e) => {
                let mut s = "BPE build: ".to_string();
                s.append(e.as_str());
                return Err(NodeStorError::IoError(s));
            },
        };
        let mut inner = tokenizer_of(model);
        set_splitter(&mut inner, false, true, true);
        set_decoder(&mut inner, false, true, true);
        let mut specials: Vec<String> = Vec::new();
        push_token(&mut specials, tokens, bos);
        push_token(&mut specials, tokens, eos);
        push_token(&mut specials, tokens, unk);
        proof {
            let none = Seq::<Seq<char>>::empty();
            let all = token_at(views(tokens@), bos) + token_at(views(tokens@), eos) + token_at(views(tokens@), unk);
            assert(views(specials@) =~= all);
            assert(none + all =~= all);
            assert(views(specials@).len() == specials@.len());
            if specials@.len() == 0 {
                assert(all =~= none);
            }
        }
        if specials.len() > 0 {
            proof {
                let vocab = vocab_of(views(tokens@), tokens@.len() as int);
                assert forall|i: int| 0 <= i < views(specials@).len() implies vocab.contains_key(
                    #[trigger] views(specials@)[i],
                ) by {
                    let all = views(tokens@);
                    let k = choose|k: int|
                        0 <= k < all.len() && #[trigger] all[k] == views(specials@)[i];
                    assert(token_at(all, bos) + token_at(all, eos) + token_at(all, unk)
                        == views(specials@));
                    texts_are_known(all, tokens@.len() as int, k);
                }
            }
            add_specials(&mut inner, &specials);
        }
        proof {
            if tokens@.len() <= 0x1_0000_0000 {
                tokens_have_one_text(views(tokens@), tokens@.len() as int);
            }
        }
        Ok(TokenizerManager { inner, raw_vocab: copy_strings(tokens) })
    }

    /// The tokens of a text. The tokenizer has to be one that can cut its
    /// encodings.
    pub fn encode(&self, text: &str) -> (r: Result<Vec<u32>, NodeStorError>)
        requires
            cuts_well(self.parts()),
        ensures
            match r {
                Ok(ids) => encodings(self.parts(), text@).contains(Some(ids@)),
                Err(e) => encodings(self.parts(), text@).contains(None) && e is IoError,
            },
            self.parts() is Built ==> encodings(self.parts(), text@) == set![
                match r {
                    Ok(ids) => Some(ids@),
                    Err(_) => None,
                },
            ],
    {
        proof {
            use_type_invariant(self);
        }
        match encode_text(&self.inner, text) {
            Ok(ids) => Ok(ids),
            Err(e) => Err(NodeStorError::IoError(e)),
        }
    }

    /// The tokens of a text, or nothing where the tokenizer cannot cut its
    /// encodings.
    pub fn encode_checked(&self, text: &str) -> (r: Option<Result<Vec<u32>, NodeStorError>>)
        ensures
            match r {
                Some(Ok(ids)) => cuts_well(self.parts()) && encodings(self.parts(), text@).contains(
                    Some(ids@),
                ),
                Some(Err(e)) => cuts_well(self.parts()) && encodings(self.parts(), text@).contains(
                    None,
                ) && e is IoError,
                None => !cuts_well(self.parts()),
            },
            self.parts() is Built && r is Some ==> encodings(self.parts(), text@) == set![
                match r->0 {
                    Ok(ids) => Some(ids@),
                    Err(_) => None,
                },
            ],
    {
        match truncation_of(&self.inner) {
            Some((length, overlap)) => {
                if length != 0 && overlap >= length {
                    return None;
                }
            },
            None => {},
        }
        Some(self.encode(text))
    }

    /// What stands for tokens of which the tokenizer made `d`.
    pub open spec fn finished(
        &self,
        d: Option<Seq<char>>,
        ids: Seq<u32>,
        skip_special: bool,
    ) -> Seq<char> {
        let t = match d {
            Some(s) => s,
            None => Seq::empty(),
        };
        if t.len() == 0 && self.vocabulary().len() > 0 {
            pieces(self.vocabulary(), ids, skip_special, ids.len() as int)
        } else {
            t
        }
    }

    /// The text of tokens, given what the tokenizer made of them: where that is
    /// empty or nothing, and there is a vocabulary, the texts of the tokens in
    /// it stand one after the other.
    pub fn finish_decode(&self, text: Option<String>, ids: &[u32], skip_special: bool) -> (r: String)
        ensures
            r@ == self.finished(text_view(text), ids@, skip_special),
    {
        let text: String = match text {
            Some(s) => s,
            None => String::new(),
        };
        if text.as_str().unicode_len() > 0 || self.raw_vocab.len() == 0 {
            return text;
        }
        let mut out = String::new();
        let mut i: usize = 0;
        assert(out@ =~= pieces(views(self.raw_vocab@), ids@, skip_special, 0));
        while i < ids.len()
            invariant
                i <= ids@.len(),
                out@ == pieces(views(self.raw_vocab@), ids@, skip_special, i as int),
            decreases ids@.len() - i,
        {
            let id: usize = ids[i] as usize;
            if id < self.raw_vocab.len() {
                let token = self.raw_vocab[id].as_str();
                if !(skip_special && check_special(token)) {
                    push_piece(&mut out, token);
                }
            }
            i = i + 1;
        }
        out
    }

    /// The text of tokens. The tokenizer has to be one that decodes every list of
    /// them.
    pub fn decode(&self, ids: &[u32], skip_special: bool) -> (r: Result<String, NodeStorError>)
        requires
            self.decodes_every_list(),
        ensures
            match r {
                Ok(s) => exists|d: Option<Seq<char>>| #[trigger]
                    decodings(self.parts(), ids@, skip_special).contains(d) && s@ == self.finished(
                        d,
                        ids@,
                        skip_special,
                    ),
                Err(_) => false,
            },
            unambiguous(self.parts()) ==> exists|d: Option<Seq<char>>|
                decodings(self.parts(), ids@, skip_special) == set![d] && r->Ok_0@
                    == #[trigger] self.finished(d, ids@, skip_special),
    {
        let text = decode_ids(&self.inner, ids, skip_special);
        let ghost d = text_view(text);
        assert(decodings(self.parts(), ids@, skip_special).contains(d));
        assert(unambiguous(self.parts()) ==> decodings(self.parts(), ids@, skip_special) == set![d]);
        Ok(self.finish_decode(text, ids, skip_special))
    }

    /// The text of tokens, or nothing where the tokenizer may not decode every
    /// list of them.
    pub fn decode_checked(&self, ids: &[u32], skip_special: bool) -> (r: Option<
        Result<String, NodeStorError>,
    >)
        ensures
            match r {
                Some(Ok(s)) => self.decodes_every_list() && exists|d: Option<Seq<char>>| #[trigger]
                    decodings(self.parts(), ids@, skip_special).contains(d) && s@ == self.finished(
                        d,
                        ids@,
                        skip_special,
                    ),
                Some(Err(_)) => false,
                None => !self.decodes_every_list(),
            },
            unambiguous(self.parts()) && r is Some ==> exists|d: Option<Seq<char>>|
                decodings(self.parts(), ids@, skip_special) == set![d] && r->0->Ok_0@
                    == #[trigger] self.finished(d, ids@, skip_special),
    {
        match decoder_of(&self.inner) {
            Some(d) => {
                if !check_treats_all(d, STEP_DEPTH) {
                    return None;
                }
            },
            None => {},
        }
        Some(self.decode(ids, skip_special))
    }
}

// ─── Vocabulary, merges and pieces ───────────────────────────────────────────

/// A token has its place in the list as its number, unless it comes again later.
pub proof fn tokens_are_numbered_by_place(tokens: Seq<Seq<char>>, n: int, i: int)
    requires
        0 <= i < n <= tokens.len() <= u32::MAX,
        forall|j: int| i < j < n ==> #[trigger] tokens[j] != tokens[i],
    ensures
        vocab_of(tokens, n).contains_key(tokens[i]),
        vocab_of(tokens, n)[tokens[i]] == i,
    decreases n,
{
    if i < n - 1 {
        tokens_are_numbered_by_place(tokens, n - 1, i);
        assert(tokens[n - 1] != tokens[i]);
    }
}

/// The vocabulary holds nothing but the tokens of the list, each under a place at which it
/// stands.
pub proof fn vocabulary_holds_the_tokens(tokens: Seq<Seq<char>>, n: int, t: Seq<char>)
    requires
        0 <= n <= tokens.len() <= u32::MAX,
        vocab_of(tokens, n).contains_key(t),
    ensures
        vocab_of(tokens, n)[t] < n,
        tokens[vocab_of(tokens, n)[t] as int] == t,
    decreases n,
{
    if n > 0 && tokens[n - 1] != t {
        vocabulary_holds_the_tokens(tokens, n - 1, t);
    }
}

/// A merge is cut at its first space: the two parts with the space between them are the
/// merge, and the first has no space. Only a text without a space is no merge.
pub proof fn merges_are_cut_at_the_first_space(s: Seq<char>)
    ensures
        match merge_pair(s) {
            Some((a, b)) => s == a.push(' ') + b && !a.contains(' '),
            None => !s.contains(' '),
        },
{
    space_comes_first(s, 0);
    let i = first_space(s, 0);
    if i < s.len() {
        let (a, b) = (s.subrange(0, i), s.subrange(i + 1, s.len() as int));
        assert(s =~= a.push(' ') + b);
        assert forall|k: int| 0 <= k < a.len() implies #[trigger] a[k] != ' ' by {
            assert(s[k] != ' ');
        }
    }
}

proof fn space_comes_first(s: Seq<char>, from: int)
    requires
        0 <= from <= s.len(),
    ensures
        from <= first_space(s, from) <= s.len(),
        first_space(s, from) < s.len() ==> s[first_space(s, from)] == ' ',
        forall|k: int| from <= k < first_space(s, from) ==> #[trigger] s[k] != ' ',
    decreases s.len() - from,
{
    if from < s.len() && s[from] != ' ' {
        space_comes_first(s, from + 1);
    }
}

/// The merges are those of the lines that are merges, in the order of the lines.
pub proof fn every_merge_is_kept(merges: Seq<Seq<char>>, n: int)
    requires
        0 <= n <= merges.len(),
    ensures
        merge_pairs(merges, n) == merges.take(n).filter(
            |s: Seq<char>| s.contains(' '),
        ).map_values(|s: Seq<char>| merge_pair(s)->0),
    decreases n,
{
    reveal(Seq::filter);
    let spaced = |s: Seq<char>| s.contains(' ');
    let pair = |s: Seq<char>| merge_pair(s)->0;
    if n > 0 {
        every_merge_is_kept(merges, n - 1);
        assert(merges.take(n).drop_last() =~= merges.take(n - 1));
        let last = merges[n - 1];
        merges_are_cut_at_the_first_space(last);
        if let Some((a, b)) = merge_pair(last) {
            assert(last[a.len() as int] == ' ');
        }
    }
    assert(merge_pairs(merges, n) =~= merges.take(n).filter(spaced).map_values(pair));
}

/// The parts of a merge and what they make together are all known.
pub open spec fn merge_is_known(
    vocab: Map<Seq<char>, u32>,
    pair: (Seq<char>, Seq<char>),
) -> bool {
    vocab.contains_key(pair.0) && vocab.contains_key(pair.1) && vocab.contains_key(pair.0 + pair.1)
}

/// Nothing is missing exactly where both parts of every merge, and what they make together,
/// are in the vocabulary; what is reported as missing is not in it.
pub proof fn missing_tokens_are_reported(
    vocab: Map<Seq<char>, u32>,
    merges: Seq<(Seq<char>, Seq<char>)>,
    from: int,
)
    requires
        0 <= from <= merges.len(),
    ensures
        first_missing(vocab, merges, from) is None <==> forall|i: int|
            from <= i < merges.len() ==> merge_is_known(vocab, #[trigger] merges[i]),
        first_missing(vocab, merges, from) is Some ==> !vocab.contains_key(
            first_missing(vocab, merges, from)->0,
        ),
    decreases merges.len() - from,
{
    if from < merges.len() {
        missing_tokens_are_reported(vocab, merges, from + 1);
        assert(merge_is_known(vocab, merges[from]) || first_missing(vocab, merges, from) is Some);
    }
}

/// A hexadecimal digit, in capitals or not.
pub open spec fn is_hex_digit(c: char) -> bool {
    '0' <= c <= '9' || 'a' <= c <= 'f' || 'A' <= c <= 'F'
}

/// Two hexadecimal digits are sixteen times the first and the second. A token that names a
/// byte so is shown as the character of that byte where it is one of ASCII, and as nothing
/// where it is not.
pub proof fn two_digits_make_a_byte(a: char, b: char)
    requires
        is_hex_digit(a),
        is_hex_digit(b),
    ensures
        ({
            let value = |c: char|
                if c as int <= '9' as int {
                    c as int - 48
                } else if c as int <= 'F' as int {
                    c as int - 55
                } else {
                    c as int - 87
                };
            let byte = 16 * value(a) + value(b);
            &&& hex_byte(seq![a, b]) == Some(byte)
            &&& piece(seq!['<', '0', 'x', a, b, '>']) == if byte < 128 {
                seq![byte as char]
            } else {
                Seq::empty()
            }
        }),
{
    let s = seq![a, b];
    assert(hex_prefix(s, 0) == Some(0int));
    assert(hex_prefix(s, 1) == Some(hex_value(a)));
    assert(hex_prefix(s, 2) == Some(16 * hex_value(a) + hex_value(b)));
    let t = seq!['<', '0', 'x', a, b, '>'];
    let u = unmarked(t);
    assert(u =~= t);
    assert(u.subrange(3, 5) =~= s);
}

/// A token that stands for no byte is shown as it is, with a space for each mark of one.
pub proof fn plain_tokens_are_shown(token: Seq<char>, i: int)
    requires
        token.len() > 0,
        token[0] != '<',
        0 <= i < token.len(),
    ensures
        piece(token).len() == token.len(),
        token[i] == 'Ġ' || token[i] == '▁' ==> piece(token)[i] == ' ',
        token[i] != 'Ġ' && token[i] != '▁' ==> piece(token)[i] == token[i],
{
}

/// The text of two lists of numbers is the text of the one and the text of the other; that
/// of one number is its token's, nothing where the vocabulary lacks it, and nothing for a
/// special token where these are left out.
pub proof fn texts_are_put_together(
    vocab: Seq<Seq<char>>,
    a: Seq<u32>,
    b: Seq<u32>,
    id: u32,
    skip_special: bool,
)
    ensures
        pieces(vocab, a + b, skip_special, (a.len() + b.len()) as int) == pieces(
            vocab,
            a,
            skip_special,
            a.len() as int,
        ) + pieces(vocab, b, skip_special, b.len() as int),
        pieces(vocab, seq![id], skip_special, 1) == if id >= vocab.len() || (skip_special
            && vocab[id as int].len() > 0 && vocab[id as int][0] == '<' && vocab[id as int].last()
            == '>') {
            Seq::empty()
        } else {
            piece(vocab[id as int])
        },
    decreases b.len(),
{
    let one = seq![id];
    assert(pieces(vocab, one, skip_special, 0) =~= Seq::<char>::empty());
    assert(pieces(vocab, one, skip_special, 1) =~= if id >= vocab.len() || (skip_special
        && is_special(vocab[id as int])) {
        Seq::empty()
    } else {
        piece(vocab[id as int])
    });
    let n = b.len() as int;
    let whole = pieces(vocab, a + b, skip_special, a.len() + n);
    if n == 0 {
        assert(a + b =~= a);
        assert(whole =~= pieces(vocab, a, skip_special, a.len() as int) + pieces(
            vocab,
            b,
            skip_special,
            0,
        ));
    } else {
        let less = b.drop_last();
        texts_are_put_together(vocab, a, less, id, skip_special);
        same_pieces(vocab, a + b, a + less, skip_special, a.len() + n - 1);
        same_pieces(vocab, b, less, skip_special, n - 1);
        assert((a + b)[a.len() + n - 1] == b[n - 1]);
        assert(whole =~= pieces(vocab, a, skip_special, a.len() as int) + pieces(
            vocab,
            b,
            skip_special,
            n,
        ));
    }
}

proof fn same_pieces(
    vocab: Seq<Seq<char>>,
    a: Seq<u32>,
    b: Seq<u32>,
    skip_special: bool,
    n: int,
)
    requires
        n <= a.len(),
        n <= b.len(),
        forall|i: int| 0 <= i < n ==> #[trigger] a[i] == b[i],
    ensures
        pieces(vocab, a, skip_special, n) == pieces(vocab, b, skip_special, n),
    decreases n,
{
    if n > 0 {
        same_pieces(vocab, a, b, skip_special, n - 1);
        assert(a[n - 1] == b[n - 1]);
    }
}

} // verus!
