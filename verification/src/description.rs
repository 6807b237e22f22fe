//! Descriptions of tokenizers: which of them are read.
//!
//! A description is a JSON text. Some that the `tokenizers` crate takes make it
//! abort, when they are read or later on some text. So a description is read only
//! where all of its parts are of kinds that are listed here: kinds that read and
//! treat every text.

use vstd::prelude::*;

use crate::json::{
    flag_at, flag_member, is_null, items_in, json_of, member, member_of, number_at,
    number_member, parse_json, parsed, size_in, size_of_object, text_at, text_member, view_of,
    Json,
};
use crate::text::{find_from, occurs_at, same, to_chars};

verus! {

/// The largest number that stands for a token, and the longest description.
pub const LARGEST: u64 = 0x0fff_ffff;

/// How many steps a part may do one after the other.
pub const STEPS: usize = 8;

/// How many characters may be put in front of a text.
pub const PREFIX: usize = 64;

/// How many tokens may be added to a vocabulary, and how long each may be.
pub const ADDED: usize = 8192;

pub const ADDED_LENGTH: usize = 1024;

/// How far texts may be padded.
pub const PADDED: u64 = 65536;

/// A member of a description; null where it is missing.
pub open spec fn part(j: Json, key: Seq<char>) -> Json {
    match member_of(j, key) {
        Some(m) => m,
        None => Json::Null,
    }
}

// ─── Patterns ────────────────────────────────────────────────────────────────

/// The patterns by which common models of byte-pair encoding split texts.
pub open spec fn known_pattern(p: Seq<char>) -> bool {
    ||| p
        == "'s|'t|'re|'ve|'m|'ll|'d| ?\\p{L}+| ?\\p{N}+| ?[^\\s\\p{L}\\p{N}]+|\\s+(?!\\S)|\\s+"@
    ||| p
        == "(?i:'s|'t|'re|'ve|'m|'ll|'d)|[^\\r\\n\\p{L}\\p{N}]?\\p{L}+|\\p{N}{1,3}| ?[^\\s\\p{L}\\p{N}]+[\\r\\n]*|\\s*[\\r\\n]+|\\s+(?!\\S)|\\s+"@
    ||| p
        == "(?i:'s|'t|'re|'ve|'m|'ll|'d)|[^\\r\\n\\p{L}\\p{N}]?\\p{L}+|\\p{N}| ?[^\\s\\p{L}\\p{N}]+[\\r\\n]*|\\s*[\\r\\n]+|\\s+(?!\\S)|\\s+"@
}

fn check_known_pattern(p: &str) -> (b: bool)
    ensures
        b == known_pattern(p@),
{
    same(
        p,
        "'s|'t|'re|'ve|'m|'ll|'d| ?\\p{L}+| ?\\p{N}+| ?[^\\s\\p{L}\\p{N}]+|\\s+(?!\\S)|\\s+",
    ) || same(
        p,
        "(?i:'s|'t|'re|'ve|'m|'ll|'d)|[^\\r\\n\\p{L}\\p{N}]?\\p{L}+|\\p{N}{1,3}| ?[^\\s\\p{L}\\p{N}]+[\\r\\n]*|\\s*[\\r\\n]+|\\s+(?!\\S)|\\s+",
    ) || same(
        p,
        "(?i:'s|'t|'re|'ve|'m|'ll|'d)|[^\\r\\n\\p{L}\\p{N}]?\\p{L}+|\\p{N}| ?[^\\s\\p{L}\\p{N}]+[\\r\\n]*|\\s*[\\r\\n]+|\\s+(?!\\S)|\\s+",
    )
}

/// The text that a step looks for, where it looks for a text as it stands.
pub open spec fn sought_text(j: Json) -> Option<Seq<char>> {
    match member_of(j, "pattern"@) {
        Some(p) => if size_of_object(p) == Some(1nat) {
            text_at(p, "String"@)
        } else {
            None
        },
        None => None,
    }
}

/// The pattern that a step looks for, where it looks for one.
pub open spec fn sought_pattern(j: Json) -> Option<Seq<char>> {
    match member_of(j, "pattern"@) {
        Some(p) => if size_of_object(p) == Some(1nat) {
            text_at(p, "Regex"@)
        } else {
            None
        },
        None => None,
    }
}

fn check_size(v: &serde_json::Value, n: usize) -> (b: bool)
    ensures
        b == (size_of_object(json_of(*v)) == Some(n as nat)),
{
    match size_in(v) {
        Some(m) => m == n,
        None => false,
    }
}

fn text_sought(v: &serde_json::Value) -> (r: Option<String>)
    ensures
        view_of(r) == sought_text(json_of(*v)),
{
    match member(v, "pattern") {
        Some(p) => if check_size(p, 1) {
            text_member(p, "String")
        } else {
            None
        },
        None => None,
    }
}

fn pattern_sought(v: &serde_json::Value) -> (r: Option<String>)
    ensures
        view_of(r) == sought_pattern(json_of(*v)),
{
    match member(v, "pattern") {
        Some(p) => if check_size(p, 1) {
            text_member(p, "Regex")
        } else {
            None
        },
        None => None,
    }
}

// ─── Steps of a part ─────────────────────────────────────────────────────────

/// The steps of a part of a description: those in its list, where it is a sequence,
/// otherwise the part itself.
pub open spec fn steps_of(j: Json, key: Seq<char>) -> Seq<Json> {
    if text_at(j, "type"@) == Some("Sequence"@) && size_of_object(j) == Some(2nat) {
        match member_of(j, key) {
            Some(Json::List(l)) => l,
            _ => seq![j],
        }
    } else {
        seq![j]
    }
}

/// The list of steps, where a part is a sequence of them.
fn steps_in<'a>(v: &'a serde_json::Value, key: &str) -> (r: Option<&'a Vec<serde_json::Value>>)
    ensures
        match r {
            Some(list) => {
                let l = steps_of(json_of(*v), key@);
                list@.len() == l.len() && forall|i: int|
                    0 <= i < l.len() ==> json_of(#[trigger] list@[i]) == l[i]
            },
            None => steps_of(json_of(*v), key@) == seq![json_of(*v)],
        },
{
    let sequence: bool = match text_member(v, "type") {
        Some(t) => same(t.as_str(), "Sequence"),
        None => false,
    };
    if !sequence || !check_size(v, 2) {
        return None;
    }
    match member(v, key) {
        Some(m) => items_in(m),
        None => None,
    }
}

// ─── Normalizers ─────────────────────────────────────────────────────────────

/// A step that replaces a text by one that is not longer. An empty text is not
/// replaced: what it is replaced by would belong to no part of the text.
pub open spec fn plain_replacement(j: Json) -> bool {
    match (sought_text(j), text_at(j, "content"@)) {
        (Some(p), Some(c)) => p.len() > 0 && c.len() <= p.len(),
        _ => false,
    }
}

/// A step that puts a text in front, which is not empty.
pub open spec fn plain_prefix(j: Json) -> bool {
    match text_at(j, "prepend"@) {
        Some(p) => 0 < p.len() <= PREFIX,
        None => false,
    }
}

/// A step that maps characters and keeps at least one of them.
pub open spec fn mapping(j: Json) -> bool {
    size_of_object(j) == Some(1nat) && match text_at(j, "type"@) {
        Some(t) => t == "NFC"@ || t == "NFD"@ || t == "NFKC"@ || t == "NFKD"@ || t
            == "Lowercase"@,
        None => false,
    }
}

/// A step that takes characters out.
pub open spec fn filtering(j: Json) -> bool {
    match text_at(j, "type"@) {
        Some(t) => {
            ||| size_of_object(j) == Some(1nat) && (t == "StripAccents"@ || t == "Nmt"@)
            ||| size_of_object(j) == Some(3nat) && t == "Strip"@ && member_of(
                j,
                "strip_left"@,
            ) is Some && member_of(j, "strip_right"@) is Some
            ||| size_of_object(j) == Some(5nat) && t == "BertNormalizer"@ && member_of(
                j,
                "clean_text"@,
            ) is Some && member_of(j, "handle_chinese_chars"@) is Some && member_of(
                j,
                "strip_accents"@,
            ) is Some && member_of(j, "lowercase"@) is Some
        },
        None => false,
    }
}

/// A step that puts a text in front.
pub open spec fn prefixing(j: Json) -> bool {
    size_of_object(j) == Some(2nat) && text_at(j, "type"@) == Some("Prepend"@) && plain_prefix(j)
}

/// A step that replaces a text by one that is not longer.
pub open spec fn replacing(j: Json) -> bool {
    size_of_object(j) == Some(3nat) && text_at(j, "type"@) == Some("Replace"@)
        && plain_replacement(j)
}

/// A step of a normalizer that treats every text.
pub open spec fn normalizing(j: Json) -> bool {
    mapping(j) || filtering(j) || prefixing(j) || replacing(j)
}

/// A step of a normalizer that leaves something of every text.
pub open spec fn leaves_text(j: Json) -> bool {
    mapping(j) || prefixing(j) || (replacing(j) && match text_at(j, "content"@) {
        Some(c) => c.len() > 0,
        None => false,
    })
}

/// All steps are of kinds that treat every text.
pub open spec fn all_normalizing(l: Seq<Json>) -> bool {
    forall|i: int| 0 <= i < l.len() ==> normalizing(#[trigger] l[i])
}

/// All steps leave something of every text.
pub open spec fn all_leave_text(l: Seq<Json>) -> bool {
    forall|i: int| 0 <= i < l.len() ==> leaves_text(#[trigger] l[i])
}

/// A normalizer treats every text.
pub open spec fn plain_normalizer(j: Json) -> bool {
    j is Null || {
        let l = steps_of(j, "normalizers"@);
        l.len() <= STEPS && all_normalizing(l)
    }
}

/// A normalizer leaves something of every text.
pub open spec fn keeps_texts(j: Json) -> bool {
    j is Null || all_leave_text(steps_of(j, "normalizers"@))
}

fn check_type(v: &serde_json::Value, name: &str) -> (b: bool)
    ensures
        b == (text_at(json_of(*v), "type"@) == Some(name@)),
{
    match text_member(v, "type") {
        Some(t) => same(t.as_str(), name),
        None => false,
    }
}

fn check_has(v: &serde_json::Value, key: &str) -> (b: bool)
    ensures
        b == (member_of(json_of(*v), key@) is Some),
{
    member(v, key).is_some()
}

fn check_mapping(v: &serde_json::Value) -> (b: bool)
    ensures
        b == mapping(json_of(*v)),
{
    check_size(v, 1) && (check_type(v, "NFC") || check_type(v, "NFD") || check_type(v, "NFKC")
        || check_type(v, "NFKD") || check_type(v, "Lowercase"))
}

fn check_filtering(v: &serde_json::Value) -> (b: bool)
    ensures
        b == filtering(json_of(*v)),
{
    if check_size(v, 1) {
        check_type(v, "StripAccents") || check_type(v, "Nmt")
    } else if check_size(v, 3) {
        check_type(v, "Strip") && check_has(v, "strip_left") && check_has(v, "strip_right")
    } else {
        check_size(v, 5) && check_type(v, "BertNormalizer") && check_has(v, "clean_text")
            && check_has(v, "handle_chinese_chars") && check_has(v, "strip_accents")
            && check_has(v, "lowercase")
    }
}

fn check_prefixing(v: &serde_json::Value) -> (b: bool)
    ensures
        b == prefixing(json_of(*v)),
{
    check_size(v, 2) && check_type(v, "Prepend") && match text_member(v, "prepend") {
        Some(p) => {
            let n: usize = p.as_str().unicode_len();
            0 < n && n <= PREFIX
        },
        None => false,
    }
}

fn check_replacing(v: &serde_json::Value) -> (b: bool)
    ensures
        b == replacing(json_of(*v)),
{
    check_size(v, 3) && check_type(v, "Replace") && match (
        text_sought(v),
        text_member(v, "content"),
    ) {
        (Some(p), Some(c)) => {
            let n: usize = p.as_str().unicode_len();
            0 < n && c.as_str().unicode_len() <= n
        },
        _ => false,
    }
}

fn check_normalizing(v: &serde_json::Value) -> (b: bool)
    ensures
        b == normalizing(json_of(*v)),
{
    check_mapping(v) || check_filtering(v) || check_prefixing(v) || check_replacing(v)
}

fn check_leaves_text(v: &serde_json::Value) -> (b: bool)
    ensures
        b == leaves_text(json_of(*v)),
{
    check_mapping(v) || check_prefixing(v) || (check_replacing(v) && match text_member(
        v,
        "content",
    ) {
        Some(c) => c.as_str().unicode_len() > 0,
        None => false,
    })
}

fn check_normalizer(v: &serde_json::Value) -> (b: bool)
    ensures
        b == plain_normalizer(json_of(*v)),
{
    if is_null(v) {
        return true;
    }
    let ghost l = steps_of(json_of(*v), "normalizers"@);
    let list: &Vec<serde_json::Value> = match steps_in(v, "normalizers") {
        Some(list) => list,
        None => {
            let b: bool = check_normalizing(v);
            proof {
                assert(l[0] == json_of(*v));
                if b {
                    assert(all_normalizing(l));
                }
            }
            return b;
        },
    };
    if list.len() > STEPS {
        return false;
    }
    let mut i: usize = 0;
    while i < list.len()
        invariant
            i <= list@.len() == l.len() <= STEPS,
            l == steps_of(json_of(*v), "normalizers"@),
            !(json_of(*v) is Null),
            forall|k: int| 0 <= k < l.len() ==> json_of(#[trigger] list@[k]) == l[k],
            forall|k: int| 0 <= k < i ==> normalizing(#[trigger] l[k]),
        decreases list@.len() - i,
    {
        assert(json_of(list@[i as int]) == l[i as int]);
        if !check_normalizing(&list[i]) {
            return false;
        }
        i = i + 1;
    }
    true
}

fn check_keeps_texts(v: &serde_json::Value) -> (b: bool)
    ensures
        b == keeps_texts(json_of(*v)),
{
    if is_null(v) {
        return true;
    }
    let ghost l = steps_of(json_of(*v), "normalizers"@);
    let list: &Vec<serde_json::Value> = match steps_in(v, "normalizers") {
        Some(list) => list,
        None => {
            let b: bool = check_leaves_text(v);
            proof {
                assert(l[0] == json_of(*v));
                if b {
                    assert(all_leave_text(l));
                }
            }
            return b;
        },
    };
    let mut i: usize = 0;
    while i < list.len()
        invariant
            i <= list@.len() == l.len(),
            l == steps_of(json_of(*v), "normalizers"@),
            !(json_of(*v) is Null),
            forall|k: int| 0 <= k < l.len() ==> json_of(#[trigger] list@[k]) == l[k],
            forall|k: int| 0 <= k < i ==> leaves_text(#[trigger] l[k]),
        decreases list@.len() - i,
    {
        assert(json_of(list@[i as int]) == l[i as int]);
        if !check_leaves_text(&list[i]) {
            return false;
        }
        i = i + 1;
    }
    true
}

// ─── Splitters ───────────────────────────────────────────────────────────────

/// A step that splits texts, and treats every text.
pub open spec fn splitting(j: Json) -> bool {
    match text_at(j, "type"@) {
        Some(t) => {
            ||| t == "BertPreTokenizer"@
            ||| t == "ByteLevel"@
            ||| t == "CharDelimiterSplit"@
            ||| t == "Digits"@
            ||| t == "Metaspace"@
            ||| t == "Punctuation"@
            ||| t == "Whitespace"@
            ||| t == "WhitespaceSplit"@
            ||| t == "Split"@ && match (sought_text(j), sought_pattern(j)) {
                (Some(s), _) => s.len() > 0,
                (None, Some(p)) => known_pattern(p),
                (None, None) => false,
            }
        },
        None => false,
    }
}

/// All steps split texts, and treat every text.
pub open spec fn all_splitting(l: Seq<Json>) -> bool {
    forall|i: int| 0 <= i < l.len() ==> splitting(#[trigger] l[i])
}

/// A splitter treats every text.
pub open spec fn plain_splitter(j: Json) -> bool {
    j is Null || {
        let l = steps_of(j, "pretokenizers"@);
        l.len() <= STEPS && all_splitting(l)
    }
}

fn check_splitting(v: &serde_json::Value) -> (b: bool)
    ensures
        b == splitting(json_of(*v)),
{
    let t = match text_member(v, "type") {
        Some(t) => t,
        None => {
            return false;
        },
    };
    let t = t.as_str();
    if same(t, "Split") {
        proof {
            reveal_strlit("Split");
            reveal_strlit("BertPreTokenizer");
            reveal_strlit("ByteLevel");
            reveal_strlit("CharDelimiterSplit");
            reveal_strlit("Digits");
            reveal_strlit("Metaspace");
            reveal_strlit("Punctuation");
            reveal_strlit("Whitespace");
            reveal_strlit("WhitespaceSplit");
            assert("Split"@.len() == 5 && "Split"@[0] == 'S' && "Digits"@.len() == 6);
        }
        return match text_sought(v) {
            Some(s) => s.as_str().unicode_len() > 0,
            None => match pattern_sought(v) {
                Some(p) => check_known_pattern(p.as_str()),
                None => false,
            },
        };
    }
    same(t, "BertPreTokenizer") || same(t, "ByteLevel") || same(t, "CharDelimiterSplit") || same(
        t,
        "Digits",
    ) || same(t, "Metaspace") || same(t, "Punctuation") || same(t, "Whitespace") || same(
        t,
        "WhitespaceSplit",
    )
}

fn check_splitter(v: &serde_json::Value) -> (b: bool)
    ensures
        b == plain_splitter(json_of(*v)),
{
    if is_null(v) {
        return true;
    }
    let ghost l = steps_of(json_of(*v), "pretokenizers"@);
    let list: &Vec<serde_json::Value> = match steps_in(v, "pretokenizers") {
        Some(list) => list,
        None => {
            let b: bool = check_splitting(v);
            proof {
                assert(l[0] == json_of(*v));
                if b {
                    assert(all_splitting(l));
                }
            }
            return b;
        },
    };
    if list.len() > STEPS {
        return false;
    }
    let mut i: usize = 0;
    while i < list.len()
        invariant
            i <= list@.len() == l.len() <= STEPS,
            l == steps_of(json_of(*v), "pretokenizers"@),
            !(json_of(*v) is Null),
            forall|k: int| 0 <= k < l.len() ==> json_of(#[trigger] list@[k]) == l[k],
            forall|k: int| 0 <= k < i ==> splitting(#[trigger] l[k]),
        decreases list@.len() - i,
    {
        assert(json_of(list@[i as int]) == l[i as int]);
        if !check_splitting(&list[i]) {
            return false;
        }
        i = i + 1;
    }
    true
}

// ─── Post-processors ─────────────────────────────────────────────────────────

/// A piece of a template stands for a special token.
pub open spec fn is_special(piece: Json) -> bool {
    member_of(piece, "SpecialToken"@) is Some && size_of_object(piece) == Some(1nat)
}

/// A piece of a template stands for the text.
pub open spec fn is_whole(piece: Json) -> bool {
    size_of_object(piece) == Some(1nat) && match member_of(piece, "Sequence"@) {
        Some(s) => text_at(s, "id"@) == Some("A"@),
        None => false,
    }
}

/// How many of the first `n` pieces of a template stand for the text.
pub open spec fn wholes(l: Seq<Json>, n: int) -> nat
    decreases n,
{
    if n <= 0 {
        0
    } else {
        wholes(l, n - 1) + if is_special(l[n - 1]) {
            0nat
        } else {
            1nat
        }
    }
}

/// A template keeps the text: it stands in it once, and nothing else does but
/// special tokens.
pub open spec fn keeps_text(template: Json) -> bool {
    match template {
        Json::List(l) => {
            &&& forall|i: int| 0 <= i < l.len() ==> is_special(#[trigger] l[i]) || is_whole(l[i])
            &&& wholes(l, l.len() as int) == 1
        },
        _ => false,
    }
}

/// A step of a post-processor that makes one encoding of one.
pub open spec fn finishing(j: Json) -> bool {
    match text_at(j, "type"@) {
        Some(t) => {
            ||| t == "TemplateProcessing"@ && size_of_object(j) == Some(4nat) && member_of(
                j,
                "pair"@,
            ) is Some && member_of(j, "special_tokens"@) is Some && match member_of(
                j,
                "single"@,
            ) {
                Some(s) => keeps_text(s),
                None => false,
            }
            ||| t == "BertProcessing"@ && size_of_object(j) == Some(3nat) && member_of(
                j,
                "sep"@,
            ) is Some && member_of(j, "cls"@) is Some
            ||| t == "RobertaProcessing"@ && size_of_object(j) == Some(5nat) && member_of(
                j,
                "sep"@,
            ) is Some && member_of(j, "cls"@) is Some && member_of(j, "trim_offsets"@) is Some
                && member_of(j, "add_prefix_space"@) is Some
            ||| t == "ByteLevel"@ && member_of(j, "sep"@) is None && member_of(j, "single"@) is None
        },
        None => false,
    }
}

/// All steps make one encoding of one.
pub open spec fn all_finishing(l: Seq<Json>) -> bool {
    forall|i: int| 0 <= i < l.len() ==> finishing(#[trigger] l[i])
}

/// A post-processor makes one encoding of one.
pub open spec fn plain_processor(j: Json) -> bool {
    j is Null || {
        let l = steps_of(j, "processors"@);
        l.len() <= STEPS && all_finishing(l)
    }
}

fn check_special(v: &serde_json::Value) -> (b: bool)
    ensures
        b == is_special(json_of(*v)),
{
    check_has(v, "SpecialToken") && check_size(v, 1)
}

fn check_whole(v: &serde_json::Value) -> (b: bool)
    ensures
        b == is_whole(json_of(*v)),
{
    check_size(v, 1) && match member(v, "Sequence") {
        Some(s) => match text_member(s, "id") {
            Some(id) => same(id.as_str(), "A"),
            None => false,
        },
        None => false,
    }
}

fn check_template(v: &serde_json::Value) -> (b: bool)
    ensures
        b == keeps_text(json_of(*v)),
{
    let list: &Vec<serde_json::Value> = match items_in(v) {
        Some(l) => l,
        None => {
            return false;
        },
    };
    let ghost l = json_of(*v)->List_0;
    let mut found: usize = 0;
    let mut i: usize = 0;
    while i < list.len()
        invariant
            i <= list@.len() == l.len(),
            json_of(*v) == Json::List(l),
            forall|k: int| 0 <= k < l.len() ==> json_of(#[trigger] list@[k]) == l[k],
            forall|k: int| 0 <= k < i ==> is_special(#[trigger] l[k]) || is_whole(l[k]),
            found <= i,
            found == wholes(l, i as int),
        decreases list@.len() - i,
    {
        assert(json_of(list@[i as int]) == l[i as int]);
        if !check_special(&list[i]) {
            if !check_whole(&list[i]) {
                return false;
            }
            found = found + 1;
        }
        i = i + 1;
    }
    found == 1
}

fn check_finishing(v: &serde_json::Value) -> (b: bool)
    ensures
        b == finishing(json_of(*v)),
{
    if check_type(v, "TemplateProcessing") && check_size(v, 4) && check_has(v, "pair")
        && check_has(v, "special_tokens") {
        match member(v, "single") {
            Some(s) => {
                if check_template(s) {
                    return true;
                }
            },
            None => {},
        }
    }
    (check_type(v, "BertProcessing") && check_size(v, 3) && check_has(v, "sep") && check_has(
        v,
        "cls",
    )) || (check_type(v, "RobertaProcessing") && check_size(v, 5) && check_has(v, "sep")
        && check_has(v, "cls") && check_has(v, "trim_offsets") && check_has(v, "add_prefix_space"))
        || (check_type(v, "ByteLevel") && !check_has(v, "sep") && !check_has(v, "single"))
}

fn check_processor(v: &serde_json::Value) -> (b: bool)
    ensures
        b == plain_processor(json_of(*v)),
{
    if is_null(v) {
        return true;
    }
    let ghost l = steps_of(json_of(*v), "processors"@);
    let list: &Vec<serde_json::Value> = match steps_in(v, "processors") {
        Some(list) => list,
        None => {
            let b: bool = check_finishing(v);
            proof {
                assert(l[0] == json_of(*v));
                if b {
                    assert(all_finishing(l));
                }
            }
            return b;
        },
    };
    if list.len() > STEPS {
        return false;
    }
    let mut i: usize = 0;
    while i < list.len()
        invariant
            i <= list@.len() == l.len() <= STEPS,
            l == steps_of(json_of(*v), "processors"@),
            !(json_of(*v) is Null),
            forall|k: int| 0 <= k < l.len() ==> json_of(#[trigger] list@[k]) == l[k],
            forall|k: int| 0 <= k < i ==> finishing(#[trigger] l[k]),
        decreases list@.len() - i,
    {
        assert(json_of(list@[i as int]) == l[i as int]);
        if !check_finishing(&list[i]) {
            return false;
        }
        i = i + 1;
    }
    true
}

// ─── Decoders ────────────────────────────────────────────────────────────────

/// A step that decodes and can be read: it looks for no pattern but a text as it
/// stands.
pub open spec fn decoding(j: Json) -> bool {
    &&& j is Object
    &&& member_of(j, "decoders"@) is None
    &&& member_of(j, "pattern"@) is Some ==> sought_text(j) is Some
}

/// All steps can be read.
pub open spec fn all_decoding(l: Seq<Json>) -> bool {
    forall|i: int| 0 <= i < l.len() ==> decoding(#[trigger] l[i])
}

/// A decoder can be read.
pub open spec fn plain_decoder(j: Json) -> bool {
    j is Null || {
        let l = steps_of(j, "decoders"@);
        l.len() <= STEPS && all_decoding(l)
    }
}

fn check_decoding(v: &serde_json::Value) -> (b: bool)
    ensures
        b == decoding(json_of(*v)),
{
    if size_in(v).is_none() || check_has(v, "decoders") {
        return false;
    }
    !check_has(v, "pattern") || text_sought(v).is_some()
}

fn check_decoder(v: &serde_json::Value) -> (b: bool)
    ensures
        b == plain_decoder(json_of(*v)),
{
    if is_null(v) {
        return true;
    }
    let ghost l = steps_of(json_of(*v), "decoders"@);
    let list: &Vec<serde_json::Value> = match steps_in(v, "decoders") {
        Some(list) => list,
        None => {
            let b: bool = check_decoding(v);
            proof {
                assert(l[0] == json_of(*v));
                if b {
                    assert(all_decoding(l));
                }
            }
            return b;
        },
    };
    if list.len() > STEPS {
        return false;
    }
    let mut i: usize = 0;
    while i < list.len()
        invariant
            i <= list@.len() == l.len() <= STEPS,
            l == steps_of(json_of(*v), "decoders"@),
            !(json_of(*v) is Null),
            forall|k: int| 0 <= k < l.len() ==> json_of(#[trigger] list@[k]) == l[k],
            forall|k: int| 0 <= k < i ==> decoding(#[trigger] l[k]),
        decreases list@.len() - i,
    {
        assert(json_of(list@[i as int]) == l[i as int]);
        if !check_decoding(&list[i]) {
            return false;
        }
        i = i + 1;
    }
    true
}

// ─── Lengths ─────────────────────────────────────────────────────────────────

/// A number is at most `most`, where it is one.
pub open spec fn at_most(n: Option<u64>, most: u64) -> bool {
    match n {
        Some(k) => k <= most,
        None => true,
    }
}

/// Padding does not ask for more than `most`.
pub open spec fn small_padding(j: Json, most: u64) -> bool {
    j is Null || {
        &&& j is Object
        &&& at_most(number_at(j, "pad_to_multiple_of"@), most)
        &&& match member_of(j, "strategy"@) {
            Some(s) => at_most(number_at(s, "Fixed"@), most),
            None => true,
        }
    }
}

/// Encodings are cut into parts that do not overlap.
pub open spec fn plain_cuts(j: Json) -> bool {
    j is Null || (j is Object && number_at(j, "stride"@) == Some(0u64))
}

/// What a part of an encoding may be padded to: not beyond what encodings are cut
/// to, where they are cut.
pub open spec fn padding_limit(truncation: Json) -> u64 {
    match number_at(truncation, "max_length"@) {
        Some(n) => if n < PADDED {
            n
        } else {
            PADDED
        },
        None => PADDED,
    }
}

fn check_at_most(n: Option<u64>, most: u64) -> (b: bool)
    ensures
        b == at_most(n, most),
{
    match n {
        Some(k) => k <= most,
        None => true,
    }
}

fn check_padding(v: &serde_json::Value, most: u64) -> (b: bool)
    ensures
        b == small_padding(json_of(*v), most),
{
    if is_null(v) {
        return true;
    }
    if size_in(v).is_none() || !check_at_most(number_member(v, "pad_to_multiple_of"), most) {
        return false;
    }
    match member(v, "strategy") {
        Some(s) => check_at_most(number_member(s, "Fixed"), most),
        None => true,
    }
}

fn check_cuts(v: &serde_json::Value) -> (b: bool)
    ensures
        b == plain_cuts(json_of(*v)),
{
    if is_null(v) {
        return true;
    }
    size_in(v).is_some() && match number_member(v, "stride") {
        Some(n) => n == 0,
        None => false,
    }
}

fn find_padding_limit(truncation: &serde_json::Value) -> (n: u64)
    ensures
        n == padding_limit(json_of(*truncation)),
{
    match number_member(truncation, "max_length") {
        Some(n) => if n < PADDED {
            n
        } else {
            PADDED
        },
        None => PADDED,
    }
}

/// What a member holds; null where it is missing.
spec fn held_by(m: Option<&serde_json::Value>) -> Json {
    match m {
        Some(v) => json_of(*v),
        None => Json::Null,
    }
}

// ─── Models and added tokens ─────────────────────────────────────────────────

/// A model with merges has no prefix that it would cut off their right sides.
pub open spec fn cuts_no_prefix(model: Json) -> bool {
    ||| match text_at(model, "type"@) {
        Some(t) => t != "BPE"@,
        None => false,
    }
    ||| member_of(model, "merges"@) is None
    ||| match text_at(model, "continuing_subword_prefix"@) {
        Some(p) => p.len() == 0,
        None => true,
    }
}

/// A model treats every text: it looks words up in a vocabulary by name. What is no
/// object is no model.
pub open spec fn plain_model(model: Json) -> bool {
    model is Object ==> !(part(model, "vocab"@) is List) && cuts_no_prefix(model)
}

/// An added token is short, and does not stand for too large a number in the
/// vocabulary.
pub open spec fn small_token(token: Json, vocab: Json) -> bool {
    match text_at(token, "content"@) {
        Some(c) => c.len() <= ADDED_LENGTH && at_most(number_at(vocab, c), LARGEST),
        None => true,
    }
}

/// No token of a list is too long, nor stands for too large a number.
pub open spec fn all_small(tokens: Seq<Json>, vocab: Json) -> bool {
    forall|i: int| 0 <= i < tokens.len() ==> small_token(#[trigger] tokens[i], vocab)
}

/// No token of a list is marked by `key`.
pub open spec fn none_marked(tokens: Seq<Json>, key: Seq<char>) -> bool {
    forall|i: int| 0 <= i < tokens.len() ==> flag_at(#[trigger] tokens[i], key) != Some(true)
}

/// The added tokens can be looked for in every text. They take spaces off one side
/// at most: two tokens that take off the same spaces would overlap. None is looked
/// for in normalized texts, unless the normalizer leaves something of it.
pub open spec fn plain_tokens(added: Json, vocab: Json, normalizer: Json) -> bool {
    match added {
        Json::List(l) => {
            &&& l.len() <= ADDED
            &&& all_small(l, vocab)
            &&& none_marked(l, "lstrip"@) || none_marked(l, "rstrip"@)
            &&& keeps_texts(normalizer) || none_marked(l, "normalized"@)
        },
        _ => true,
    }
}

fn check_cuts_no_prefix(v: &serde_json::Value) -> (b: bool)
    ensures
        b == cuts_no_prefix(json_of(*v)),
{
    (match text_member(v, "type") {
        Some(t) => !same(t.as_str(), "BPE"),
        None => false,
    }) || !check_has(v, "merges") || (match text_member(v, "continuing_subword_prefix") {
        Some(p) => p.as_str().unicode_len() == 0,
        None => true,
    })
}

fn check_model(v: &serde_json::Value) -> (b: bool)
    ensures
        b == plain_model(json_of(*v)),
{
    if size_in(v).is_none() {
        return true;
    }
    (match member(v, "vocab") {
        Some(w) => items_in(w).is_none(),
        None => true,
    }) && check_cuts_no_prefix(v)
}

fn check_small(list: &Vec<serde_json::Value>, vocab: Option<&serde_json::Value>) -> (b: bool)
    ensures
        b == all_small(list@.map_values(|v: serde_json::Value| json_of(v)), held_by(vocab)),
{
    let ghost l = list@.map_values(|v: serde_json::Value| json_of(v));
    let mut i: usize = 0;
    while i < list.len()
        invariant
            i <= list@.len() == l.len(),
            l == list@.map_values(|v: serde_json::Value| json_of(v)),
            forall|k: int| 0 <= k < i ==> small_token(#[trigger] l[k], held_by(vocab)),
        decreases list@.len() - i,
    {
        assert(json_of(list@[i as int]) == l[i as int]);
        match text_member(&list[i], "content") {
            Some(c) => {
                let id: Option<u64> = match vocab {
                    Some(w) => number_member(w, c.as_str()),
                    None => None,
                };
                if c.as_str().unicode_len() > ADDED_LENGTH || !check_at_most(id, LARGEST) {
                    assert(!small_token(l[i as int], held_by(vocab)));
                    return false;
                }
            },
            None => {},
        }
        i = i + 1;
    }
    true
}

fn check_none_marked(list: &Vec<serde_json::Value>, key: &str) -> (b: bool)
    ensures
        b == none_marked(list@.map_values(|v: serde_json::Value| json_of(v)), key@),
{
    let ghost l = list@.map_values(|v: serde_json::Value| json_of(v));
    let mut i: usize = 0;
    while i < list.len()
        invariant
            i <= list@.len() == l.len(),
            l == list@.map_values(|v: serde_json::Value| json_of(v)),
            forall|k: int| 0 <= k < i ==> flag_at(#[trigger] l[k], key@) != Some(true),
        decreases list@.len() - i,
    {
        assert(json_of(list@[i as int]) == l[i as int]);
        match flag_member(&list[i], key) {
            Some(b) => {
                if b {
                    assert(flag_at(l[i as int], key@) == Some(true));
                    return false;
                }
            },
            None => {},
        }
        i = i + 1;
    }
    true
}

fn check_tokens(
    added: &serde_json::Value,
    vocab: Option<&serde_json::Value>,
    normalizer: Option<&serde_json::Value>,
) -> (b: bool)
    ensures
        b == plain_tokens(json_of(*added), held_by(vocab), held_by(normalizer)),
{
    let list: &Vec<serde_json::Value> = match items_in(added) {
        Some(l) => l,
        None => {
            return true;
        },
    };
    proof {
        assert(list@.map_values(|v: serde_json::Value| json_of(v)) =~= json_of(*added)->List_0);
    }
    list.len() <= ADDED && check_small(list, vocab) && (check_none_marked(list, "lstrip")
        || check_none_marked(list, "rstrip")) && ((match normalizer {
        Some(n) => check_keeps_texts(n),
        None => true,
    }) || check_none_marked(list, "normalized"))
}

// ─── Whole descriptions ──────────────────────────────────────────────────────

/// All parts of a description are of kinds that treat every text.
pub open spec fn plain_parts(j: Json) -> bool {
    &&& plain_normalizer(part(j, "normalizer"@))
    &&& plain_splitter(part(j, "pre_tokenizer"@))
    &&& plain_processor(part(j, "post_processor"@))
    &&& plain_decoder(part(j, "decoder"@))
    &&& plain_cuts(part(j, "truncation"@))
    &&& small_padding(part(j, "padding"@), padding_limit(part(j, "truncation"@)))
    &&& plain_model(part(j, "model"@))
    &&& plain_tokens(
        part(j, "added_tokens"@),
        part(part(j, "model"@), "vocab"@),
        part(j, "normalizer"@),
    )
}

/// How far a text has been looked through: how many brackets are open, whether a
/// text in quotation marks is, whether the next character in it stands for itself,
/// and how many colons stood right inside the outermost brackets.
pub struct Scan {
    pub depth: int,
    pub quoted: bool,
    pub escaped: bool,
    pub colons: nat,
}

impl Scan {
    /// After one more character.
    pub open spec fn next(self, c: char) -> Scan {
        if self.quoted {
            if self.escaped {
                Scan { escaped: false, ..self }
            } else if c == '\\' {
                Scan { escaped: true, ..self }
            } else if c == '"' {
                Scan { quoted: false, ..self }
            } else {
                self
            }
        } else if c == '"' {
            Scan { quoted: true, ..self }
        } else if c == '{' || c == '[' {
            Scan { depth: self.depth + 1, ..self }
        } else if c == '}' || c == ']' {
            Scan { depth: self.depth - 1, ..self }
        } else if c == ':' && self.depth == 1 {
            Scan { colons: self.colons + 1, ..self }
        } else {
            self
        }
    }
}

/// The first `n` characters, looked through.
pub open spec fn scanned(text: Seq<char>, n: int) -> Scan
    decreases n,
{
    if n <= 0 {
        Scan { depth: 0, quoted: false, escaped: false, colons: 0 }
    } else {
        scanned(text, n - 1).next(text[n - 1])
    }
}

/// How many members a text writes down in its outermost object.
pub open spec fn written_members(text: Seq<char>) -> nat {
    scanned(text, text.len() as int).colons
}

/// A text names the prefix of a model at most once, and plainly: of two members
/// with one name a value holds the last only.
pub open spec fn plainly_written(text: Seq<char>) -> bool {
    &&& text.len() <= LARGEST
    &&& forall|i: int, j: int|
        #![trigger occurs_at(text, "continuing_subword_prefix"@, i), occurs_at(text, "continuing_subword_prefix"@, j)]
        occurs_at(text, "continuing_subword_prefix"@, i) && occurs_at(
            text,
            "continuing_subword_prefix"@,
            j,
        ) ==> i == j
    &&& forall|i: int| !occurs_at(text, "\\u005"@, i)
    &&& forall|i: int| !occurs_at(text, "\\u006"@, i)
    &&& forall|i: int| !occurs_at(text, "\\u007"@, i)
}

/// A description does not make the `tokenizers` crate abort: it writes no part down
/// twice, and all of its parts are of kinds that treat every text. A text that is no
/// JSON object describes nothing.
pub open spec fn treatable(text: Seq<char>) -> bool {
    match parsed(text) {
        Ok(j) => j is Object ==> {
            &&& plainly_written(text)
            &&& size_of_object(j) == Some(written_members(text))
            &&& plain_parts(j)
        },
        Err(_) => true,
    }
}

fn check_parts(v: &serde_json::Value) -> (b: bool)
    ensures
        b == plain_parts(json_of(*v)),
{
    let normalizer = member(v, "normalizer");
    let truncation = member(v, "truncation");
    let most: u64 = match truncation {
        Some(m) => find_padding_limit(m),
        None => PADDED,
    };
    let model = member(v, "model");
    let vocab = match model {
        Some(m) => member(m, "vocab"),
        None => None,
    };
    (match normalizer {
        Some(m) => check_normalizer(m),
        None => true,
    }) && (match member(v, "pre_tokenizer") {
        Some(m) => check_splitter(m),
        None => true,
    }) && (match member(v, "post_processor") {
        Some(m) => check_processor(m),
        None => true,
    }) && (match member(v, "decoder") {
        Some(m) => check_decoder(m),
        None => true,
    }) && (match truncation {
        Some(m) => check_cuts(m),
        None => true,
    }) && (match member(v, "padding") {
        Some(m) => check_padding(m, most),
        None => true,
    }) && (match model {
        Some(m) => check_model(m),
        None => true,
    }) && (match member(v, "added_tokens") {
        Some(m) => check_tokens(m, vocab, normalizer),
        None => true,
    })
}

fn check_lacks(text: &Vec<char>, word: &str) -> (b: bool)
    ensures
        b == forall|i: int| !occurs_at(text@, word@, i),
{
    let w = to_chars(word);
    match find_from(text, &w, 0) {
        Some(i) => {
            assert(occurs_at(text@, word@, i as int));
            false
        },
        None => {
            true
        },
    }
}

fn check_plainly_written(v: &Vec<char>) -> (b: bool)
    ensures
        b == plainly_written(v@),
{
    if v.len() as u64 > LARGEST {
        return false;
    }
    if !check_lacks(v, "\\u005") || !check_lacks(v, "\\u006") || !check_lacks(v, "\\u007") {
        return false;
    }
    let w = to_chars("continuing_subword_prefix");
    match find_from(v, &w, 0) {
        Some(i) => match find_from(v, &w, i + 1) {
            Some(j) => {
                assert(occurs_at(v@, "continuing_subword_prefix"@, i as int));
                assert(occurs_at(v@, "continuing_subword_prefix"@, j as int));
                false
            },
            None => {
                assert forall|a: int| occurs_at(v@, "continuing_subword_prefix"@, a) implies a
                    == i by {
                    assert(occurs_at(v@, w@, a));
                }
                true
            },
        },
        None => {
            assert forall|a: int| !occurs_at(v@, "continuing_subword_prefix"@, a) by {
                if a >= 0 {
                    assert(!occurs_at(v@, w@, a));
                }
            }
            true
        },
    }
}

fn count_members(v: &Vec<char>) -> (n: usize)
    ensures
        n == written_members(v@),
{
    let mut depth: i128 = 0;
    let mut quoted: bool = false;
    let mut escaped: bool = false;
    let mut colons: usize = 0;
    let mut i: usize = 0;
    while i < v.len()
        invariant
            i <= v@.len(),
            colons <= i,
            -i <= depth <= i,
            scanned(v@, i as int) == (Scan {
                depth: depth as int,
                quoted,
                escaped,
                colons: colons as nat,
            }),
        decreases v@.len() - i,
    {
        let c: char = v[i];
        assert(scanned(v@, i + 1) == scanned(v@, i as int).next(c));
        if quoted {
            if escaped {
                escaped = false;
            } else if c == '\\' {
                escaped = true;
            } else if c == '"' {
                quoted = false;
            }
        } else if c == '"' {
            quoted = true;
        } else if c == '{' || c == '[' {
            depth = depth + 1;
        } else if c == '}' || c == ']' {
            depth = depth - 1;
        } else if c == ':' && depth == 1 {
            colons = colons + 1;
        }
        i = i + 1;
    }
    colons
}

/// Whether a description does not make the `tokenizers` crate abort. Where it is
/// no JSON, why.
pub fn check_treatable(text: &str) -> (r: Result<bool, String>)
    ensures
        match (r, parsed(text@)) {
            (Ok(b), Ok(j)) => b == treatable(text@),
            (Err(e), Err(m)) => e@ == m,
            _ => false,
        },
{
    match parse_json(text) {
        Ok(v) => {
            let chars = to_chars(text);
            if size_in(&v).is_none() {
                return Ok(true);
            }
            Ok(
                check_plainly_written(&chars) && check_size(&v, count_members(&chars))
                    && check_parts(&v),
            )
        },
        Err(e) => Err(e),
    }
}

} // verus!
