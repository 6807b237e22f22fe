//! Cutting documents into chunks where their subject changes.
//!
//! How far two segments are apart, and which features a chunk has, is measured
//! elsewhere, in single precision; here such numbers are bit patterns.

use std::collections::hash_map::DefaultHasher;
use std::hash::Hasher;
use vstd::prelude::*;
use vstd::std_specs::hash::DefaultHasherAdditionalSpecFns;
use vstd::utf8::{decode_utf8, encode_utf8, valid_utf8};

use crate::float_bits::{check_lt, float_lt};
use crate::le_bytes::copy_bytes;
use crate::text::{
    check_starts_with, dec, from_chars, push_dec, same, starts_with, to_chars, trim, trimmed,
    utf8_string, views,
};

verus! {

/// 0.35 in single precision.
pub const BOUNDARY_THRESHOLD: u32 = 0x3EB3_3333;

/// How many active features of a chunk are kept.
pub const MAX_FEATURES: usize = 32;

/// How many features the embedding of a chunk has.
pub const EMBEDDING_SIZE: usize = 64;

/// How many bytes around a chunk belong to its context.
pub const CONTEXT_MARGIN: usize = 200;

/// A chunk and what is known of it.
#[derive(Debug)]
pub struct EnrichedChunk {
    pub text: String,
    pub id: u64,
    pub embedding: Vec<u32>,
    /// The index and the strength of each active feature.
    pub sae_features: Vec<(usize, u32)>,
    pub semantic_tags: Vec<String>,
    pub parent_doc: String,
    pub section_header: Option<String>,
    /// Where in the document the chunk is.
    pub location_context: String,
    /// The chunk before and the chunk after.
    pub neighbor_chunk_ids: Vec<u64>,
    pub topology_cluster: Option<usize>,
    pub position: usize,
}

/// How documents are cut.
pub struct SemanticChunker {
    /// How far apart two segments are that do not belong together.
    pub boundary_threshold: u32,
    /// The most bytes of a segment, but for its last line.
    pub max_chunk_chars: usize,
    /// The least bytes of a segment and of a chunk.
    pub min_chunk_chars: usize,
    /// What features stand for.
    pub feature_tag_map: Vec<(usize, String)>,
}

// ─── Lines ───────────────────────────────────────────────────────────────────

/// How many bytes a text takes.
pub open spec fn byte_size(s: Seq<char>) -> usize {
    encode_utf8(s).len() as usize
}

/// Where the line that begins at `from` ends.
pub open spec fn line_end(s: Seq<char>, from: int) -> int
    decreases s.len() - from,
{
    if from < 0 || from >= s.len() || s[from] == '\n' {
        from
    } else {
        line_end(s, from + 1)
    }
}

/// The line that begins at `from`, without its line ending.
pub open spec fn line_at(s: Seq<char>, from: int) -> Seq<char> {
    let end = line_end(s, from);
    if end < s.len() && end > from && s[end - 1] == '\r' {
        s.subrange(from, end - 1)
    } else {
        s.subrange(from, end)
    }
}

/// The lines of a text from `from` on.
pub open spec fn lines_from(s: Seq<char>, from: int) -> Seq<Seq<char>>
    decreases s.len() + 1 - from,
{
    if from < 0 || from >= s.len() || !(from <= line_end(s, from) <= s.len()) {
        Seq::empty()
    } else {
        seq![line_at(s, from)] + lines_from(s, line_end(s, from) + 1)
    }
}

/// The lines of a text.
pub fn split_lines(text: &str) -> (r: Vec<String>)
    ensures
        views(r@) == lines_from(text@, 0),
{
    let v = to_chars(text);
    let n: usize = v.len();
    let mut r: Vec<String> = Vec::new();
    let mut at: usize = 0;
    assert(views(r@) + lines_from(text@, 0) =~= lines_from(text@, 0));
    while at < n
        invariant
            v@ == text@,
            n == v.len(),
            at <= n + 1,
            views(r@) + lines_from(text@, at as int) == lines_from(text@, 0),
        decreases n + 1 - at,
    {
        let mut end: usize = at;
        while end < n && v[end] != '\n'
            invariant
                v@ == text@,
                n == v@.len(),
                at <= end <= n,
                line_end(text@, at as int) == line_end(text@, end as int),
            decreases n - end,
        {
            end = end + 1;
        }
        let stop: usize = if end < n && end > at && v[end - 1] == '\r' {
            end - 1
        } else {
            end
        };
        let ghost before = views(r@);
        let ghost rest = lines_from(text@, end + 1);
        let line = from_chars(&v, at, stop);
        r.push(line);
        proof {
            assert(line@ == line_at(text@, at as int));
            assert(lines_from(text@, at as int) == seq![line@] + rest);
            assert(views(r@) =~= before.push(line@));
            assert(before + (seq![line@] + rest) =~= before.push(line@) + rest);
        }
        if end == n {
            assert(rest =~= Seq::<Seq<char>>::empty());
            assert(views(r@) =~= views(r@) + rest);
            return r;
        }
        at = end + 1;
    }
    assert(lines_from(text@, at as int) =~= Seq::<Seq<char>>::empty());
    assert(views(r@) =~= views(r@) + lines_from(text@, at as int));
    r
}

// ─── Segments ────────────────────────────────────────────────────────────────

/// A line, trimmed, begins something new.
pub open spec fn begins_segment(line: Seq<char>) -> bool {
    ||| line.len() == 0
    ||| starts_with(line, "fn "@)
    ||| starts_with(line, "pub fn "@)
    ||| starts_with(line, "async fn "@)
    ||| starts_with(line, "## "@)
    ||| starts_with(line, "# "@)
    ||| starts_with(line, "class "@)
    ||| starts_with(line, "def "@)
    ||| starts_with(line, "function "@)
}

/// The segments so far, and the lines that are not in one yet.
pub struct Cut {
    pub segments: Seq<Seq<char>>,
    pub current: Seq<char>,
}

impl Cut {
    /// The lines that are left become a segment, if they are not blank and
    /// `enough` of them.
    pub open spec fn closed(self, enough: bool) -> Cut {
        Cut {
            segments: if trim(self.current).len() > 0 && enough {
                self.segments.push(trim(self.current))
            } else {
                self.segments
            },
            current: Seq::empty(),
        }
    }

    /// One line more.
    pub open spec fn then_line(self, line: Seq<char>, min: usize, max: usize) -> Cut {
        let before = if begins_segment(trim(line)) && trim(self.current).len() > 0 {
            self.closed(byte_size(self.current) >= min)
        } else {
            self
        };
        let with_line = Cut {
            segments: before.segments,
            current: (before.current + line).push('\n'),
        };
        if byte_size(with_line.current) >= max {
            with_line.closed(true)
        } else {
            with_line
        }
    }
}

/// What the first `n` lines are cut into.
pub open spec fn cut_lines(lines: Seq<Seq<char>>, min: usize, max: usize, n: int) -> Cut
    decreases n,
{
    if n <= 0 {
        Cut { segments: Seq::empty(), current: Seq::empty() }
    } else {
        cut_lines(lines, min, max, n - 1).then_line(lines[n - 1], min, max)
    }
}

/// The segments of a text.
pub open spec fn segments_of(text: Seq<char>, min: usize, max: usize) -> Seq<Seq<char>> {
    let lines = lines_from(text, 0);
    let cut = cut_lines(lines, min, max, lines.len() as int);
    cut.closed(byte_size(cut.current) >= min).segments
}

fn check_begins(line: &str) -> (b: bool)
    ensures
        b == begins_segment(line@),
{
    line.unicode_len() == 0 || check_starts_with(line, "fn ") || check_starts_with(line, "pub fn ")
        || check_starts_with(line, "async fn ") || check_starts_with(line, "## ")
        || check_starts_with(line, "# ") || check_starts_with(line, "class ") || check_starts_with(
        line,
        "def ",
    ) || check_starts_with(line, "function ")
}

fn close_segment(segments: &mut Vec<String>, current: String, enough: bool)
    ensures
        views(final(segments)@) == (Cut {
            segments: views(old(segments)@),
            current: current@,
        }).closed(enough).segments,
{
    let ghost before = segments@;
    let t = trimmed(current.as_str());
    if t.as_str().unicode_len() > 0 && enough {
        segments.push(t);
        assert(views(segments@) =~= views(before).push(t@));
    }
}

// ─── Groups ──────────────────────────────────────────────────────────────────

/// Segment `i` begins a new group.
pub open spec fn begins_group(boundaries: Seq<bool>, i: int) -> bool {
    i > 0 && i < boundaries.len() && boundaries[i]
}

/// What the first `n` segments are grouped into.
pub open spec fn grouped(segments: Seq<Seq<char>>, boundaries: Seq<bool>, n: int) -> Cut
    decreases n,
{
    if n <= 0 {
        Cut { segments: Seq::empty(), current: Seq::empty() }
    } else {
        let before = grouped(segments, boundaries, n - 1);
        let cut = if begins_group(boundaries, n - 1) && before.current.len() > 0 {
            Cut { segments: before.segments.push(trim(before.current)), current: Seq::empty() }
        } else {
            before
        };
        Cut {
            segments: cut.segments,
            current: if cut.current.len() > 0 {
                cut.current.push('\n') + segments[n - 1]
            } else {
                segments[n - 1]
            },
        }
    }
}

/// The groups of segments.
pub open spec fn groups_of(segments: Seq<Seq<char>>, boundaries: Seq<bool>) -> Seq<Seq<char>> {
    grouped(segments, boundaries, segments.len() as int).closed(true).segments
}

// ─── Features ────────────────────────────────────────────────────────────────

/// The features among the first `n` that are above zero, up to the most that are
/// kept.
pub open spec fn active_features(features: Seq<u32>, n: int) -> Seq<(usize, u32)>
    decreases n,
{
    if n <= 0 {
        Seq::empty()
    } else {
        let before = active_features(features, n - 1);
        if before.len() < MAX_FEATURES && float_lt(0, features[n - 1]) {
            before.push(((n - 1) as usize, features[n - 1]))
        } else {
            before
        }
    }
}

/// What a feature stands for.
pub open spec fn tag_of(map: Seq<(usize, String)>, feature: usize, from: int) -> Option<Seq<char>>
    decreases map.len() - from,
{
    if from < 0 || from >= map.len() {
        None
    } else if map[from].0 == feature {
        Some(map[from].1@)
    } else {
        tag_of(map, feature, from + 1)
    }
}

/// What the first `n` features stand for, without repetition in a row.
pub open spec fn tags_of(map: Seq<(usize, String)>, active: Seq<(usize, u32)>, n: int) -> Seq<
    Seq<char>,
>
    decreases n,
{
    if n <= 0 {
        Seq::empty()
    } else {
        let before = tags_of(map, active, n - 1);
        match tag_of(map, active[n - 1].0, 0) {
            Some(t) => if before.len() > 0 && before.last() == t {
                before
            } else {
                before.push(t)
            },
            None => before,
        }
    }
}

/// Some feature is above zero.
pub open spec fn has_active(features: Seq<u32>) -> bool {
    exists|i: int| 0 <= i < features.len() && float_lt(0, #[trigger] features[i])
}

/// The embedding of a chunk: its first features, or zeros where none is above
/// zero.
pub open spec fn embedding_of(features: Seq<u32>) -> Seq<u32> {
    let n = if features.len() < EMBEDDING_SIZE {
        features.len()
    } else {
        EMBEDDING_SIZE as nat
    };
    if has_active(features) {
        features.take(n as int)
    } else {
        Seq::new(n, |i: int| 0u32)
    }
}

/// The first line of a chunk, trimmed.
pub open spec fn first_line(text: Seq<char>) -> Seq<char> {
    let lines = lines_from(text, 0);
    if lines.len() > 0 {
        trim(lines[0])
    } else {
        trim(Seq::empty())
    }
}

/// The header of a chunk.
pub open spec fn header_of(text: Seq<char>) -> Option<Seq<char>> {
    let line = first_line(text);
    if starts_with(line, "#"@) || starts_with(line, "fn "@) || starts_with(line, "pub fn "@)
        || starts_with(line, "class "@) || starts_with(line, "def "@) {
        Some(line)
    } else {
        None
    }
}

/// Where in its document a chunk is.
pub open spec fn location(doc: Seq<char>, pos: nat, count: nat) -> Seq<char> {
    "Documento: '"@ + doc + "' | Chunk "@ + dec(pos + 1) + " de "@ + dec(count)
}

// ─── Chunks ──────────────────────────────────────────────────────────────────

/// The positions below `n` of groups that are large enough for a chunk.
pub open spec fn kept_positions(groups: Seq<Seq<char>>, min: usize, n: int) -> Seq<int>
    decreases n,
{
    if n <= 0 {
        Seq::empty()
    } else {
        let before = kept_positions(groups, min, n - 1);
        if byte_size(groups[n - 1]) < min {
            before
        } else {
            before.push(n - 1)
        }
    }
}

/// The id of the group of `text` at `pos` of a document: the hash of the name of the
/// document, the position and the length of the text.
pub open spec fn chunk_id(doc: Seq<char>, pos: int, text: Seq<char>) -> u64 {
    DefaultHasher::spec_finish(
        seq![
            encode_utf8(doc),
            seq![0xffu8],
            vstd::bytes::spec_u64_to_le_bytes(pos as u64),
            vstd::bytes::spec_u64_to_le_bytes(byte_size(text) as u64),
        ],
    )
}

/// The chunk is that of a group, but for its neighbours.
pub open spec fn is_chunk_of(
    c: EnrichedChunk,
    groups: Seq<Seq<char>>,
    pos: int,
    doc: Seq<char>,
    features: Seq<u32>,
    map: Seq<(usize, String)>,
) -> bool {
    let active = active_features(features, features.len() as int);
    &&& c.text@ == groups[pos]
    &&& c.id == chunk_id(doc, pos, groups[pos])
    &&& c.embedding@ == embedding_of(features)
    &&& c.sae_features@ == active
    &&& views(c.semantic_tags@) == tags_of(map, active, active.len() as int)
    &&& c.parent_doc@ == doc
    &&& (match (c.section_header, header_of(groups[pos])) {
        (Some(a), Some(b)) => a@ == b,
        (None, None) => true,
        _ => false,
    })
    &&& c.location_context@ == location(doc, pos as nat, groups.len())
    &&& c.topology_cluster is None
    &&& c.position == pos
}

/// The ids of the chunks before and after chunk `k`.
pub open spec fn neighbours(ids: Seq<u64>, k: int) -> Seq<u64> {
    (if k > 0 {
        seq![ids[k - 1]]
    } else {
        Seq::empty()
    }) + if k + 1 < ids.len() {
        seq![ids[k + 1]]
    } else {
        Seq::empty()
    }
}

/// The ids of chunks.
pub open spec fn ids_of(chunks: Seq<EnrichedChunk>) -> Seq<u64> {
    chunks.map_values(|c: EnrichedChunk| c.id)
}

/// The default tags.
pub open spec fn default_tags() -> Seq<(usize, Seq<char>)> {
    seq![
        (0usize, "sintaxe"@),
        (10usize, "seguranÃ§a"@),
        (20usize, "autenticaÃ§Ã£o"@),
        (30usize, "criptografia"@),
        (40usize, "banco_de_dados"@),
        (50usize, "api"@),
        (60usize, "configuraÃ§Ã£o"@),
        (70usize, "teste"@),
        (80usize, "documentaÃ§Ã£o"@),
        (90usize, "algoritmo"@),
        (100usize, "estrutura_de_dados"@),
        (110usize, "rede"@),
        (120usize, "erro"@),
        (130usize, "performance"@),
        (140usize, "paralelismo"@),
    ]
}

/// The views of a tag map.
pub open spec fn tag_views(map: Seq<(usize, String)>) -> Seq<(usize, Seq<char>)> {
    map.map_values(|e: (usize, String)| (e.0, e.1@))
}

impl SemanticChunker {
    /// A chunker with the usual settings.
    pub fn new(max_chunk_chars: usize) -> (c: SemanticChunker)
        ensures
            c.boundary_threshold == BOUNDARY_THRESHOLD,
            c.max_chunk_chars == max_chunk_chars,
            c.min_chunk_chars == 50,
            tag_views(c.feature_tag_map@) == default_tags(),
    {
        SemanticChunker {
            boundary_threshold: BOUNDARY_THRESHOLD,
            max_chunk_chars,
            min_chunk_chars: 50,
            feature_tag_map: Self::load_default_feature_tags(),
        }
    }

    fn load_default_feature_tags() -> (m: Vec<(usize, String)>)
        ensures
            tag_views(m@) == default_tags(),
    {
        let mut m: Vec<(usize, String)> = Vec::new();
        m.push((0, "sintaxe".to_string()));
        m.push((10, "seguranÃ§a".to_string()));
        m.push((20, "autenticaÃ§Ã£o".to_string()));
        m.push((30, "criptografia".to_string()));
        m.push((40, "banco_de_dados".to_string()));
        m.push((50, "api".to_string()));
        m.push((60, "configuraÃ§Ã£o".to_string()));
        m.push((70, "teste".to_string()));
        m.push((80, "documentaÃ§Ã£o".to_string()));
        m.push((90, "algoritmo".to_string()));
        m.push((100, "estrutura_de_dados".to_string()));
        m.push((110, "rede".to_string()));
        m.push((120, "erro".to_string()));
        m.push((130, "performance".to_string()));
        m.push((140, "paralelismo".to_string()));
        assert(tag_views(m@) =~= default_tags());
        m
    }

    /// Cuts a text into segments, at blank lines, headings and the beginnings of
    /// functions, and where a segment gets too long. Segments that are too short
    /// are left out.
    pub fn split_into_segments(&self, text: &str) -> (r: Vec<String>)
        ensures
            views(r@) == segments_of(text@, self.min_chunk_chars, self.max_chunk_chars),
    {
        let lines = split_lines(text);
        let ghost all = lines_from(text@, 0);
        let ghost min = self.min_chunk_chars;
        let ghost max = self.max_chunk_chars;
        let mut r: Vec<String> = Vec::new();
        let mut current = String::new();
        let mut i: usize = 0;
        assert(views(r@) =~= Seq::<Seq<char>>::empty());
        while i < lines.len()
            invariant
                views(lines@) == all,
                lines@.len() == all.len(),
                min == self.min_chunk_chars,
                max == self.max_chunk_chars,
                i <= lines@.len(),
                (Cut { segments: views(r@), current: current@ }) == cut_lines(
                    all,
                    min,
                    max,
                    i as int,
                ),
            decreases lines@.len() - i,
        {
            let line = lines[i].as_str();
            assert(line@ == all[i as int]);
            let ghost start = cut_lines(all, min, max, i as int);
            let t = trimmed(line);
            let blank: bool = trimmed(current.as_str()).as_str().unicode_len() == 0;
            if check_begins(t.as_str()) && !blank {
                let enough: bool = current.as_str().len() >= self.min_chunk_chars;
                close_segment(&mut r, current, enough);
                current = String::new();
            }
            let ghost before = Cut { segments: views(r@), current: current@ };
            current.append(line);
            current.push('\n');
            if current.as_str().len() >= self.max_chunk_chars {
                close_segment(&mut r, current, true);
                current = String::new();
            }
            proof {
                let next = Cut { segments: views(r@), current: current@ };
                assert(next == start.then_line(line@, min, max));
            }
            i = i + 1;
        }
        let enough: bool = current.as_str().len() >= self.min_chunk_chars;
        close_segment(&mut r, current, enough);
        r
    }

    /// Which segments begin a group, given how far each but the first is from
    /// the one before it: those that are further than the threshold, and the
    /// first.
    pub fn detect_boundaries(&self, distances: &Vec<u32>) -> (r: Vec<bool>)
        ensures
            r@.len() == distances@.len() + 1,
            r@[0],
            forall|i: int|
                0 <= i < distances@.len() ==> #[trigger] r@[i + 1] == float_lt(
                    self.boundary_threshold,
                    distances@[i],
                ),
    {
        let mut r: Vec<bool> = Vec::new();
        r.push(true);
        let mut i: usize = 0;
        while i < distances.len()
            invariant
                i <= distances@.len(),
                r@.len() == i + 1,
                r@[0],
                forall|j: int|
                    0 <= j < i ==> #[trigger] r@[j + 1] == float_lt(
                        self.boundary_threshold,
                        distances@[j],
                    ),
            decreases distances@.len() - i,
        {
            r.push(check_lt(self.boundary_threshold, distances[i]));
            i = i + 1;
        }
        r
    }

    /// Puts segments together up to the next boundary.
    pub fn group_by_boundaries(&self, segments: &Vec<String>, boundaries: &Vec<bool>) -> (r: Vec<
        String,
    >)
        ensures
            views(r@) == groups_of(views(segments@), boundaries@),
    {
        let ghost all = views(segments@);
        let mut r: Vec<String> = Vec::new();
        let mut current = String::new();
        let mut i: usize = 0;
        assert(views(r@) =~= Seq::<Seq<char>>::empty());
        while i < segments.len()
            invariant
                all == views(segments@),
                all.len() == segments@.len(),
                i <= segments@.len(),
                (Cut { segments: views(r@), current: current@ }) == grouped(
                    all,
                    boundaries@,
                    i as int,
                ),
            decreases segments@.len() - i,
        {
            let ghost before = r@;
            if i > 0 && i < boundaries.len() && boundaries[i] && current.as_str().unicode_len()
                > 0 {
                let t = trimmed(current.as_str());
                r.push(t);
                assert(views(r@) =~= views(before).push(t@));
                current = String::new();
            }
            if current.as_str().unicode_len() > 0 {
                current.push('\n');
            }
            current.append(segments[i].as_str());
            proof {
                let c = grouped(all, boundaries@, i + 1).current;
                assert(all[i as int] == segments@[i as int]@);
                assert(current@ =~= c);
            }
            i = i + 1;
        }
        close_segment(&mut r, current, true);
        r
    }

    /// The active features of a chunk.
    pub fn extract_active_features(&self, features: &Vec<u32>) -> (r: Vec<(usize, u32)>)
        ensures
            r@ == active_features(features@, features@.len() as int),
    {
        let mut r: Vec<(usize, u32)> = Vec::new();
        let mut i: usize = 0;
        while i < features.len()
            invariant
                i <= features@.len(),
                r@ == active_features(features@, i as int),
            decreases features@.len() - i,
        {
            if r.len() < MAX_FEATURES && check_lt(0, features[i]) {
                r.push((i, features[i]));
            }
            i = i + 1;
        }
        r
    }

    fn tag_at(&self, feature: usize) -> (r: Option<String>)
        ensures
            match (r, tag_of(self.feature_tag_map@, feature, 0)) {
                (Some(a), Some(b)) => a@ == b,
                (None, None) => true,
                _ => false,
            },
    {
        let mut i: usize = 0;
        while i < self.feature_tag_map.len()
            invariant
                i <= self.feature_tag_map@.len(),
                tag_of(self.feature_tag_map@, feature, 0) == tag_of(
                    self.feature_tag_map@,
                    feature,
                    i as int,
                ),
            decreases self.feature_tag_map@.len() - i,
        {
            if self.feature_tag_map[i].0 == feature {
                return Some(self.feature_tag_map[i].1.clone());
            }
            i = i + 1;
        }
        None
    }

    /// What active features stand for.
    pub fn features_to_tags(&self, active: &Vec<(usize, u32)>) -> (r: Vec<String>)
        ensures
            views(r@) == tags_of(self.feature_tag_map@, active@, active@.len() as int),
    {
        let mut r: Vec<String> = Vec::new();
        let mut i: usize = 0;
        assert(views(r@) =~= Seq::<Seq<char>>::empty());
        while i < active.len()
            invariant
                i <= active@.len(),
                views(r@) == tags_of(self.feature_tag_map@, active@, i as int),
            decreases active@.len() - i,
        {
            let ghost before = r@;
            assert(views(before).len() == before.len());
            match self.tag_at(active[i].0) {
                Some(t) => {
                    if !(r.len() > 0 && same(r[r.len() - 1].as_str(), t.as_str())) {
                        r.push(t);
                        assert(views(r@) =~= views(before).push(t@));
                    }
                },
                None => {},
            }
            i = i + 1;
        }
        r
    }

    /// The embedding of a chunk.
    pub fn features_to_embedding(&self, features: &Vec<u32>) -> (r: Vec<u32>)
        ensures
            r@ == embedding_of(features@),
    {
        let mut active: bool = false;
        let mut i: usize = 0;
        while i < features.len()
            invariant
                i <= features@.len(),
                active == exists|j: int| 0 <= j < i && float_lt(0, #[trigger] features@[j]),
            decreases features@.len() - i,
        {
            if check_lt(0, features[i]) {
                active = true;
                assert(float_lt(0, features@[i as int]));
            }
            i = i + 1;
        }
        let n: usize = if features.len() < EMBEDDING_SIZE {
            features.len()
        } else {
            EMBEDDING_SIZE
        };
        let mut r: Vec<u32> = Vec::new();
        let mut k: usize = 0;
        while k < n
            invariant
                k <= n <= features@.len(),
                r@.len() == k,
                active == has_active(features@),
                forall|j: int|
                    0 <= j < k ==> #[trigger] r@[j] == if active {
                        features@[j]
                    } else {
                        0u32
                    },
            decreases n - k,
        {
            r.push(
                if active {
                    features[k]
                } else {
                    0
                },
            );
            k = k + 1;
        }
        assert(r@ =~= embedding_of(features@));
        r
    }

    /// The header of a chunk, if its first line is one.
    pub fn detect_section_header(&self, text: &str) -> (r: Option<String>)
        ensures
            match (r, header_of(text@)) {
                (Some(a), Some(b)) => a@ == b,
                (None, None) => true,
                _ => false,
            },
    {
        let lines = split_lines(text);
        assert(views(lines@).len() == lines@.len());
        let none = String::new();
        let line = if lines.len() > 0 {
            trimmed(lines[0].as_str())
        } else {
            trimmed(none.as_str())
        };
        assert(line@ == first_line(text@));
        let s = line.as_str();
        if check_starts_with(s, "#") || check_starts_with(s, "fn ") || check_starts_with(
            s,
            "pub fn ",
        ) || check_starts_with(s, "class ") || check_starts_with(s, "def ") {
            Some(line)
        } else {
            None
        }
    }

    /// Each chunk gets the ids of the chunk before and the chunk after it.
    pub fn link_neighbors(chunks: &mut Vec<EnrichedChunk>)
        requires
            forall|k: int|
                0 <= k < old(chunks)@.len() ==> (#[trigger] old(
                    chunks,
                )@[k]).neighbor_chunk_ids@.len() == 0,
        ensures
            final(chunks)@.len() == old(chunks)@.len(),
            forall|k: int|
                0 <= k < final(chunks)@.len() ==> (#[trigger] final(
                    chunks)@[k]).neighbor_chunk_ids@ == neighbours(ids_of(old(chunks)@), k)
                    && same_but_neighbours(final(chunks)@[k], old(chunks)@[k]),
    {
        let ghost start = chunks@;
        let ghost ids = ids_of(start);
        let mut k: usize = 0;
        while k < chunks.len()
            invariant
                k <= chunks@.len(),
                chunks@.len() == start.len(),
                ids == ids_of(start),
                forall|j: int|
                    0 <= j < start.len() ==> (#[trigger] start[j]).neighbor_chunk_ids@.len() == 0,
                forall|j: int|
                    0 <= j < k ==> (#[trigger] chunks@[j]).neighbor_chunk_ids@ == neighbours(
                        ids,
                        j,
                    ) && same_but_neighbours(chunks@[j], start[j]),
                forall|j: int| k <= j < chunks@.len() ==> #[trigger] chunks@[j] == start[j],
            decreases chunks@.len() - k,
        {
            let mut list: Vec<u64> = Vec::new();
            if k > 0 {
                list.push(chunks[k - 1].id);
                assert(chunks@[k - 1].id == start[k - 1].id);
            }
            if k + 1 < chunks.len() {
                list.push(chunks[k + 1].id);
                assert(chunks@[k + 1].id == start[k + 1].id);
            }
            assert(list@ =~= neighbours(ids, k as int));
            assert(chunks@[k as int] == start[k as int]);
            chunks[k].neighbor_chunk_ids = list;
            k = k + 1;
        }
    }

    /// The id of the group of `text` at `pos` of a document: a hash of the document,
    /// the position and the length.
    pub fn hash_chunk(&self, doc_id: &str, pos: usize, text: &str) -> (id: u64)
        ensures
            id == chunk_id(doc_id@, pos as int, text@),
    {
        let mut h = DefaultHasher::new();
        let mut end: Vec<u8> = Vec::new();
        end.push(0xff);
        h.write(doc_id.as_bytes());
        h.write(end.as_slice());
        let at = vstd::bytes::u64_to_le_bytes(pos as u64);
        h.write(at.as_slice());
        let len = vstd::bytes::u64_to_le_bytes(text.len() as u64);
        h.write(len.as_slice());
        proof {
            assert(end@ =~= seq![0xffu8]);
            assert(h@ =~= seq![
                encode_utf8(doc_id@),
                seq![0xffu8],
                vstd::bytes::spec_u64_to_le_bytes(pos as u64),
                vstd::bytes::spec_u64_to_le_bytes(byte_size(text@) as u64),
            ]);
        }
        h.finish()
    }

    /// The chunks of a document, given its groups and the features of each. Groups
    /// that are too short give none.
    pub fn chunk_document(
        &self,
        doc_id: &str,
        groups: &Vec<String>,
        features: &Vec<Vec<u32>>,
    ) -> (r: Vec<EnrichedChunk>)
        requires
            features@.len() == groups@.len(),
        ensures
            ({
                let all = views(groups@);
                let kept = kept_positions(all, self.min_chunk_chars, all.len() as int);
                &&& r@.len() == kept.len()
                &&& forall|k: int|
                    0 <= k < r@.len() ==> is_chunk_of(
                        #[trigger] r@[k],
                        all,
                        kept[k],
                        doc_id@,
                        features@[kept[k]]@,
                        self.feature_tag_map@,
                    ) && r@[k].neighbor_chunk_ids@ == neighbours(ids_of(r@), k)
            }),
    {
        let ghost all = views(groups@);
        let mut r: Vec<EnrichedChunk> = Vec::new();
        let mut pos: usize = 0;
        while pos < groups.len()
            invariant
                all == views(groups@),
                all.len() == groups@.len(),
                features@.len() == groups@.len(),
                pos <= groups@.len(),
                r@.len() == kept_positions(all, self.min_chunk_chars, pos as int).len(),
                forall|k: int|
                    0 <= k < r@.len() ==> is_chunk_of(
                        #[trigger] r@[k],
                        all,
                        kept_positions(all, self.min_chunk_chars, pos as int)[k],
                        doc_id@,
                        features@[kept_positions(all, self.min_chunk_chars, pos as int)[k]]@,
                        self.feature_tag_map@,
                    ) && r@[k].neighbor_chunk_ids@.len() == 0,
            decreases groups@.len() - pos,
        {
            let text = groups[pos].as_str();
            assert(text@ == all[pos as int]);
            let ghost before = kept_positions(all, self.min_chunk_chars, pos as int);
            let ghost after = kept_positions(all, self.min_chunk_chars, pos + 1);
            if text.len() >= self.min_chunk_chars {
                let active = self.extract_active_features(&features[pos]);
                let tags = self.features_to_tags(&active);
                let mut place = "Documento: '".to_string();
                place.append(doc_id);
                place.append("' | Chunk ");
                push_dec(&mut place, pos as u64 + 1);
                place.append(" de ");
                push_dec(&mut place, groups.len() as u64);
                let chunk = EnrichedChunk {
                    text: text.to_string(),
                    id: self.hash_chunk(doc_id, pos, text),
                    embedding: self.features_to_embedding(&features[pos]),
                    sae_features: active,
                    semantic_tags: tags,
                    parent_doc: doc_id.to_string(),
                    section_header: self.detect_section_header(text),
                    location_context: place,
                    neighbor_chunk_ids: Vec::new(),
                    topology_cluster: None,
                    position: pos,
                };
                r.push(chunk);
                assert(after == before.push(pos as int));
            } else {
                assert(after == before);
            }
            pos = pos + 1;
        }
        let ghost plain = r@;
        Self::link_neighbors(&mut r);
        proof {
            assert(ids_of(r@) =~= ids_of(plain)) by {
                assert forall|k: int| 0 <= k < r@.len() implies (#[trigger] r@[k]).id
                    == plain[k].id by {}
            }
            let kept = kept_positions(all, self.min_chunk_chars, all.len() as int);
            assert forall|k: int| 0 <= k < r@.len() implies is_chunk_of(
                #[trigger] r@[k],
                all,
                kept[k],
                doc_id@,
                features@[kept[k]]@,
                self.feature_tag_map@,
            ) && r@[k].neighbor_chunk_ids@ == neighbours(ids_of(r@), k) by {
                assert(same_but_neighbours(r@[k], plain[k]));
                assert(is_chunk_of(
                    plain[k],
                    all,
                    kept[k],
                    doc_id@,
                    features@[kept[k]]@,
                        self.feature_tag_map@,
                ));
            }
        }
        r
    }

    /// The part of a document around a chunk: the chunk's bytes, where it first
    /// stands, with a margin on both sides. A chunk that is not there counts as
    /// standing at the beginning. Nothing where the margin cuts a character in
    /// two.
    pub fn get_parent_context(&self, chunk: &EnrichedChunk, full_doc: &str) -> (r: Option<String>)
        ensures
            ({
                let part = context_bytes(encode_utf8(full_doc@), encode_utf8(chunk.text@));
                match r {
                    Some(s) => valid_utf8(part) && s@ == decode_utf8(part),
                    None => !valid_utf8(part),
                }
            }),
    {
        let doc = full_doc.as_bytes();
        let needle = chunk.text.as_str().as_bytes();
        let start: usize = find_bytes(doc, needle);
        let from: usize = if start < CONTEXT_MARGIN {
            0
        } else {
            start - CONTEXT_MARGIN
        };
        let room: usize = doc.len() - start;
        let to: usize = if room < CONTEXT_MARGIN || room - CONTEXT_MARGIN < needle.len() {
            doc.len()
        } else {
            start + needle.len() + CONTEXT_MARGIN
        };
        utf8_string(copy_bytes(doc, from, to))
    }
}

/// The chunks are the same but for their neighbours.
pub open spec fn same_but_neighbours(a: EnrichedChunk, b: EnrichedChunk) -> bool {
    &&& a.text == b.text
    &&& a.id == b.id
    &&& a.embedding == b.embedding
    &&& a.sae_features == b.sae_features
    &&& a.semantic_tags == b.semantic_tags
    &&& a.parent_doc == b.parent_doc
    &&& a.section_header == b.section_header
    &&& a.location_context == b.location_context
    &&& a.topology_cluster == b.topology_cluster
    &&& a.position == b.position
}

// ─── Context ─────────────────────────────────────────────────────────────────

/// `needle` stands in `hay` at `i`.
pub open spec fn bytes_at(hay: Seq<u8>, needle: Seq<u8>, i: int) -> bool {
    0 <= i && i + needle.len() <= hay.len() && hay.subrange(i, i + needle.len()) == needle
}

/// Where `needle` first stands in `hay` from `from` on, or 0.
pub open spec fn first_bytes(hay: Seq<u8>, needle: Seq<u8>, from: int) -> int
    decreases hay.len() + 1 - from,
{
    if from < 0 || from > hay.len() {
        0
    } else if bytes_at(hay, needle, from) {
        from
    } else {
        first_bytes(hay, needle, from + 1)
    }
}

/// The bytes of a document around a chunk.
pub open spec fn context_bytes(doc: Seq<u8>, chunk: Seq<u8>) -> Seq<u8> {
    let start = first_bytes(doc, chunk, 0);
    let from = if start < CONTEXT_MARGIN {
        0
    } else {
        start - CONTEXT_MARGIN
    };
    let to = if start + chunk.len() + CONTEXT_MARGIN < doc.len() {
        start + chunk.len() + CONTEXT_MARGIN
    } else {
        doc.len() as int
    };
    doc.subrange(from, to)
}

fn find_bytes(hay: &[u8], needle: &[u8]) -> (i: usize)
    ensures
        i == first_bytes(hay@, needle@, 0),
        i <= hay@.len(),
{
    if needle.len() > hay.len() {
        proof {
            none_found(hay@, needle@, 0);
        }
        return 0;
    }
    let last: usize = hay.len() - needle.len();
    let mut i: usize = 0;
    loop
        invariant
            last == hay@.len() - needle@.len(),
            i <= last,
            last <= hay.len(),
            first_bytes(hay@, needle@, 0) == first_bytes(hay@, needle@, i as int),
        decreases last - i,
    {
        let mut k: usize = 0;
        while k < needle.len() && hay[i + k] == needle[k]
            invariant
                last == hay@.len() - needle@.len(),
                i <= last,
                hay.len() == hay@.len(),
                k <= needle@.len(),
                forall|j: int| 0 <= j < k ==> hay@[i + j] == needle@[j],
            decreases needle@.len() - k,
        {
            k = k + 1;
        }
        if k == needle.len() {
            assert(hay@.subrange(i as int, i + needle@.len()) =~= needle@);
            return i;
        }
        proof {
            assert(hay@.subrange(i as int, i + needle@.len())[k as int] != needle@[k as int]);
        }
        if i == last {
            proof {
                none_found(hay@, needle@, i + 1);
            }
            return 0;
        }
        i = i + 1;
    }
}

proof fn none_found(hay: Seq<u8>, needle: Seq<u8>, from: int)
    requires
        0 <= from,
        from + needle.len() > hay.len(),
    ensures
        first_bytes(hay, needle, from) == 0,
    decreases hay.len() + 1 - from,
{
    if from <= hay.len() {
        none_found(hay, needle, from + 1);
    }
}

// ─── Laws ────────────────────────────────────────────────────────────────────

/// None of the texts is empty.
pub open spec fn none_empty(texts: Seq<Seq<char>>) -> bool {
    forall|i: int| 0 <= i < texts.len() ==> (#[trigger] texts[i]).len() > 0
}

/// No segment is blank.
pub proof fn segments_are_not_blank(text: Seq<char>, min: usize, max: usize)
    ensures
        none_empty(segments_of(text, min, max)),
{
    let lines = lines_from(text, 0);
    let cut = cut_lines(lines, min, max, lines.len() as int);
    cuts_are_not_blank(lines, min, max, lines.len() as int);
    closing_adds_no_blank(cut, byte_size(cut.current) >= min);
}

proof fn cuts_are_not_blank(lines: Seq<Seq<char>>, min: usize, max: usize, n: int)
    requires
        0 <= n <= lines.len(),
    ensures
        none_empty(cut_lines(lines, min, max, n).segments),
    decreases n,
{
    if n > 0 {
        cuts_are_not_blank(lines, min, max, n - 1);
        let start = cut_lines(lines, min, max, n - 1);
        let line = lines[n - 1];
        closing_adds_no_blank(start, byte_size(start.current) >= min);
        let before = if begins_segment(trim(line)) && trim(start.current).len() > 0 {
            start.closed(byte_size(start.current) >= min)
        } else {
            start
        };
        let with_line = Cut {
            segments: before.segments,
            current: (before.current + line).push('\n'),
        };
        closing_adds_no_blank(with_line, true);
    }
}

proof fn closing_adds_no_blank(c: Cut, enough: bool)
    requires
        none_empty(c.segments),
    ensures
        none_empty(c.closed(enough).segments),
{
}

/// Neighbours know each other: if a chunk is followed by another, each has the
/// other's id.
pub proof fn neighbours_are_mutual(ids: Seq<u64>, k: int)
    requires
        0 <= k,
        k + 1 < ids.len(),
    ensures
        neighbours(ids, k).contains(ids[k + 1]),
        neighbours(ids, k + 1).contains(ids[k]),
{
    assert(neighbours(ids, k).last() == ids[k + 1]);
    assert(neighbours(ids, k + 1)[0] == ids[k]);
}

/// The lines from `a` up to `b` as a text, each with its line ending.
pub open spec fn run_text(lines: Seq<Seq<char>>, a: int, b: int) -> Seq<char>
    decreases b - a,
{
    if a >= b {
        Seq::empty()
    } else {
        (run_text(lines, a, b - 1) + lines[b - 1]).push('\n')
    }
}

/// A run of lines is a segment: it is not blank, and it has the least size, or the most.
pub open spec fn is_kept(run: Seq<char>, min: usize, max: usize) -> bool {
    trim(run).len() > 0 && (byte_size(run) >= min || byte_size(run) >= max)
}

/// The first `m` of the runs between `cuts` that are segments, trimmed.
pub open spec fn kept_runs(
    lines: Seq<Seq<char>>,
    cuts: Seq<int>,
    min: usize,
    max: usize,
    m: int,
) -> Seq<Seq<char>>
    decreases m,
{
    if m <= 0 {
        Seq::empty()
    } else {
        let before = kept_runs(lines, cuts, min, max, m - 1);
        let run = run_text(lines, cuts[m - 1], cuts[m]);
        if is_kept(run, min, max) {
            before.push(trim(run))
        } else {
            before
        }
    }
}

/// The run of lines from `a` up to `b` goes on at `b`: it has not the most size, and
/// line `b` does not begin something new after text.
pub open spec fn goes_on(lines: Seq<Seq<char>>, max: usize, a: int, b: int) -> bool {
    &&& byte_size(run_text(lines, a, b)) < max
    &&& !(begins_segment(trim(lines[b])) && trim(run_text(lines, a, b)).len() > 0)
}

/// The run of lines from `a` up to `b` is cut where it has to be: it goes on at every line
/// inside it, and not at its end.
pub open spec fn well_cut(lines: Seq<Seq<char>>, max: usize, a: int, b: int) -> bool {
    &&& a < b
    &&& forall|j: int| a < j < b ==> #[trigger] goes_on(lines, max, a, j)
    &&& b < lines.len() ==> !goes_on(lines, max, a, b)
}

/// No text is lost but blanks and short runs. The lines of a text are cut into runs, one
/// after the other and up to the last line. A run ends right where it has the most size or
/// where a line begins something new, and nowhere else. The segments are these runs,
/// trimmed, without those that are blank or too short.
pub proof fn segments_are_runs_of_lines(text: Seq<char>, min: usize, max: usize) -> (cuts: Seq<int>)
    ensures
        ({
            let lines = lines_from(text, 0);
            &&& cuts.len() > 0 && cuts[0] == 0 && cuts.last() == lines.len()
            &&& forall|k: int|
                0 <= k < cuts.len() - 1 ==> #[trigger] well_cut(lines, max, cuts[k], cuts[k + 1])
            &&& segments_of(text, min, max) == kept_runs(
                lines,
                cuts,
                min,
                max,
                cuts.len() - 1,
            )
        }),
{
    let lines = lines_from(text, 0);
    let n = lines.len() as int;
    let cut = cut_lines(lines, min, max, n);
    let cuts = runs_up_to(lines, min, max, n);
    let s = cuts.last();
    if s == n {
        trim_of_nothing();
        cuts
    } else {
        let all = cuts.push(n);
        kept_runs_of_beginning(lines, cuts, all, min, max, cuts.len() - 1);
        assert(well_cut(lines, max, s, n));
        assert forall|k: int| 0 <= k < all.len() - 1 implies #[trigger] well_cut(
            lines,
            max,
            all[k],
            all[k + 1],
        ) by {
            if k < cuts.len() - 1 {
                assert(well_cut(lines, max, cuts[k], cuts[k + 1]));
            }
        }
        assert(all[all.len() - 2] == s);
        assert(below_most(lines, max, s, n));
        all
    }
}

spec fn below_most(lines: Seq<Seq<char>>, max: usize, a: int, j: int) -> bool {
    byte_size(run_text(lines, a, j)) < max
}

proof fn trim_of_nothing()
    ensures
        trim(Seq::<char>::empty()).len() == 0,
{
    let r = crate::text::trimming_takes_off_white_space(Seq::<char>::empty());
}

proof fn runs_up_to(lines: Seq<Seq<char>>, min: usize, max: usize, n: int) -> (cuts: Seq<int>)
    requires
        0 <= n <= lines.len(),
    ensures
        ({
            let cut = cut_lines(lines, min, max, n);
            let s = cuts.last();
            &&& cuts.len() > 0 && cuts[0] == 0 && 0 <= s <= n
            &&& forall|k: int|
                0 <= k < cuts.len() - 1 ==> #[trigger] well_cut(lines, max, cuts[k], cuts[k + 1])
            &&& cut.segments == kept_runs(lines, cuts, min, max, cuts.len() - 1)
            &&& cut.current == run_text(lines, s, n)
            &&& forall|j: int| s < j < n ==> #[trigger] goes_on(lines, max, s, j)
            &&& s < n ==> below_most(lines, max, s, n)
        }),
    decreases n,
{
    if n == 0 {
        seq![0]
    } else {
        let before = runs_up_to(lines, min, max, n - 1);
        let start = cut_lines(lines, min, max, n - 1);
        let after = cut_lines(lines, min, max, n);
        let line = lines[n - 1];
        let s = before.last();
        trim_of_nothing();
        let breaks = begins_segment(trim(line)) && trim(start.current).len() > 0;
        let mid = if breaks {
            before.push(n - 1)
        } else {
            before
        };
        if breaks {
            assert(s < n - 1);
            assert(below_most(lines, max, s, n - 1));
            assert(!goes_on(lines, max, s, n - 1));
            assert(well_cut(lines, max, s, n - 1));
            kept_runs_of_beginning(lines, before, mid, min, max, before.len() - 1);
            assert forall|k: int| 0 <= k < mid.len() - 1 implies #[trigger] well_cut(
                lines,
                max,
                mid[k],
                mid[k + 1],
            ) by {
                if k < before.len() - 1 {
                    assert(well_cut(lines, max, before[k], before[k + 1]));
                }
            }
            assert(mid[mid.len() - 2] == s);
        } else if s < n - 1 {
            assert(below_most(lines, max, s, n - 1));
            assert(goes_on(lines, max, s, n - 1));
        }
        let a = mid.last();
        assert(run_text(lines, a, n) == (run_text(lines, a, n - 1) + line).push('\n'));
        if breaks {
            assert(run_text(lines, a, n - 1) =~= Seq::<char>::empty());
        }
        let whole = run_text(lines, a, n);
        if byte_size(whole) >= max {
            let r = mid.push(n);
            kept_runs_of_beginning(lines, mid, r, min, max, mid.len() - 1);
            assert(!goes_on(lines, max, a, n));
            assert(well_cut(lines, max, a, n));
            assert forall|k: int| 0 <= k < r.len() - 1 implies #[trigger] well_cut(
                lines,
                max,
                r[k],
                r[k + 1],
            ) by {
                if k < mid.len() - 1 {
                    assert(well_cut(lines, max, mid[k], mid[k + 1]));
                }
            }
            assert(r[r.len() - 2] == a);
            assert(run_text(lines, n, n) =~= Seq::<char>::empty());
            r
        } else {
            mid
        }
    }
}

proof fn kept_runs_of_beginning(
    lines: Seq<Seq<char>>,
    cuts: Seq<int>,
    longer: Seq<int>,
    min: usize,
    max: usize,
    m: int,
)
    requires
        0 <= m < cuts.len() <= longer.len(),
        forall|k: int| 0 <= k < cuts.len() ==> cuts[k] == longer[k],
    ensures
        kept_runs(lines, cuts, min, max, m) == kept_runs(lines, longer, min, max, m),
    decreases m,
{
    if m > 0 {
        kept_runs_of_beginning(lines, cuts, longer, min, max, m - 1);
    }
}

/// How long the first `n` lines of a text are with their line endings, where line `i` ends
/// with `ends[i]` characters of line ending.
pub open spec fn lines_length(lines: Seq<Seq<char>>, ends: Seq<nat>, n: int) -> nat
    decreases n,
{
    if n <= 0 {
        0
    } else {
        lines_length(lines, ends, n - 1) + lines[n - 1].len() + ends[n - 1]
    }
}

/// What the lines of a text are: they stand in it one after the other, with a line feed,
/// or a carriage return and a line feed, behind each, but for the last, which may also end
/// with the text. No line holds a line feed, and nothing else stands in the text.
pub proof fn lines_make_up_the_text(s: Seq<char>) -> (ends: Seq<nat>)
    ensures
        ({
            let lines = lines_from(s, 0);
            &&& ends.len() == lines.len()
            &&& lines_length(lines, ends, lines.len() as int) == s.len()
            &&& forall|i: int| 0 <= i < lines.len() ==> #[trigger] stands_as_line(s, lines, ends, i)
        }),
{
    let ends = lines_from_make_up(s, 0);
    assert(s.skip(0) =~= s);
    ends
}

/// Line `i` stands in the text behind the lines before it, and its line ending behind it.
pub open spec fn stands_as_line(
    s: Seq<char>,
    lines: Seq<Seq<char>>,
    ends: Seq<nat>,
    i: int,
) -> bool {
    let at = lines_length(lines, ends, i) as int;
    let end = at + lines[i].len();
    &&& end + ends[i] <= s.len()
    &&& s.subrange(at, end) == lines[i]
    &&& !lines[i].contains('\n')
    &&& {
        ||| ends[i] == 0 && i == lines.len() - 1 && end == s.len()
        ||| ends[i] == 1 && s[end] == '\n'
        ||| ends[i] == 2 && s[end] == '\r' && s[end + 1] == '\n'
    }
}

proof fn line_end_is_first(s: Seq<char>, from: int)
    requires
        0 <= from <= s.len(),
    ensures
        from <= line_end(s, from) <= s.len(),
        line_end(s, from) < s.len() ==> s[line_end(s, from)] == '\n',
        forall|i: int| from <= i < line_end(s, from) ==> #[trigger] s[i] != '\n',
    decreases s.len() - from,
{
    if from < s.len() && s[from] != '\n' {
        line_end_is_first(s, from + 1);
    }
}

proof fn lines_from_make_up(s: Seq<char>, from: int) -> (ends: Seq<nat>)
    requires
        0 <= from <= s.len(),
    ensures
        ({
            let lines = lines_from(s, from);
            &&& ends.len() == lines.len()
            &&& lines_length(lines, ends, lines.len() as int) == s.len() - from
            &&& forall|i: int|
                0 <= i < lines.len() ==> #[trigger] stands_as_line(s.skip(from), lines, ends, i)
        }),
    decreases s.len() - from,
{
    let lines = lines_from(s, from);
    if from == s.len() {
        assert(lines =~= Seq::<Seq<char>>::empty());
        Seq::empty()
    } else {
        line_end_is_first(s, from);
        let end = line_end(s, from);
        let line = line_at(s, from);
        let text = s.skip(from);
        if end == s.len() {
            assert(lines_from(s, end + 1) =~= Seq::<Seq<char>>::empty());
            assert(lines =~= seq![line]);
            let ends = seq![0nat];
            assert(lines_length(lines, ends, 1) == lines_length(lines, ends, 0) + line.len());
            assert(text.subrange(0, line.len() as int) =~= line);
            assert(!line.contains('\n')) by {
                assert forall|i: int| 0 <= i < line.len() implies line[i] != '\n' by {
                    assert(s[from + i] != '\n');
                }
            }
            assert(stands_as_line(text, lines, ends, 0));
            ends
        } else {
            let rest = lines_from(s, end + 1);
            let more = lines_from_make_up(s, end + 1);
            let e = (end + 1 - from - line.len()) as nat;
            let ends = seq![e] + more;
            assert(lines =~= seq![line] + rest);
            assert(e == 1 || e == 2);
            first_line_length(lines, ends, rest, more, rest.len() as int);
            assert forall|i: int| 0 <= i < lines.len() implies #[trigger] stands_as_line(
                text,
                lines,
                ends,
                i,
            ) by {
                if i == 0 {
                    assert(lines_length(lines, ends, 0) == 0);
                    assert(text.subrange(0, line.len() as int) =~= line);
                    assert(!line.contains('\n')) by {
                        assert forall|j: int| 0 <= j < line.len() implies line[j] != '\n' by {
                            assert(s[from + j] != '\n');
                        }
                    }
                } else {
                    assert(stands_as_line(s.skip(end + 1), rest, more, i - 1));
                    first_line_length(lines, ends, rest, more, i - 1);
                    let at = lines_length(rest, more, i - 1) as int;
                    let d = end + 1 - from;
                    assert(lines[i] == rest[i - 1] && ends[i] == more[i - 1]);
                    assert(text.subrange(at + d, at + d + lines[i].len()) =~= s.skip(
                        end + 1,
                    ).subrange(at, at + lines[i].len()));
                }
            }
            ends
        }
    }
}

proof fn first_line_length(
    lines: Seq<Seq<char>>,
    ends: Seq<nat>,
    rest: Seq<Seq<char>>,
    more: Seq<nat>,
    n: int,
)
    requires
        lines.len() > 0,
        ends.len() == lines.len(),
        rest.len() == more.len() == lines.len() - 1,
        lines == seq![lines[0]] + rest,
        ends == seq![ends[0]] + more,
        0 <= n <= rest.len(),
    ensures
        lines_length(lines, ends, n + 1) == lines[0].len() + ends[0] + lines_length(rest, more, n),
    decreases n,
{
    if n > 0 {
        first_line_length(lines, ends, rest, more, n - 1);
        assert(lines[n] == rest[n - 1] && ends[n] == more[n - 1]);
    } else {
        assert(lines_length(lines, ends, 0) == 0);
    }
}

// ─── Groups, features and context ────────────────────────────────────────────

/// The segments from `a` up to `b`, with a line break between each and the next.
pub open spec fn run_of_segments(segments: Seq<Seq<char>>, a: int, b: int) -> Seq<char>
    decreases b - a,
{
    if a >= b {
        Seq::empty()
    } else if a + 1 == b {
        segments[a]
    } else {
        run_of_segments(segments, a, b - 1).push('\n') + segments[b - 1]
    }
}

/// The cuts divide the first `n` segments into runs: a run begins at the first segment and
/// at every segment that a boundary stands before, and nowhere else.
pub open spec fn cut_at_boundaries(cuts: Seq<int>, boundaries: Seq<bool>, n: int) -> bool {
    &&& cuts.len() > 0
    &&& cuts[0] == 0
    &&& forall|k: int| 0 <= k < cuts.len() ==> 0 <= #[trigger] cuts[k] < n
    &&& forall|j: int, k: int| 0 <= j < k < cuts.len() ==> #[trigger] cuts[j] < #[trigger] cuts[k]
    &&& forall|k: int|
        0 < k < cuts.len() ==> #[trigger] cuts[k] < boundaries.len() && boundaries[cuts[k]]
    &&& forall|i: int|
        0 < i < n && i < boundaries.len() && #[trigger] boundaries[i] ==> cuts.contains(i)
}

/// Groups lose no segment and cross no boundary: each is the run of the segments from one
/// boundary to the next, without the white space round it. The result is where the runs
/// begin. Only the last run can be left out, and only if it is blank.
pub proof fn groups_are_runs_of_segments(segments: Seq<Seq<char>>, boundaries: Seq<bool>) -> (cuts:
    Seq<int>)
    requires
        none_empty(segments),
        segments.len() > 0,
    ensures
        cut_at_boundaries(cuts, boundaries, segments.len() as int),
        ({
            let groups = groups_of(segments, boundaries);
            let end = trim(run_of_segments(segments, cuts.last(), segments.len() as int));
            &&& forall|k: int|
                0 <= k < cuts.len() - 1 ==> #[trigger] groups[k] == trim(
                    run_of_segments(segments, cuts[k], cuts[k + 1]),
                )
            &&& end.len() > 0 ==> groups.len() == cuts.len() && groups.last() == end
            &&& end.len() == 0 ==> groups.len() == cuts.len() - 1
        }),
{
    runs_so_far(segments, boundaries, segments.len() as int)
}

proof fn runs_so_far(segments: Seq<Seq<char>>, boundaries: Seq<bool>, n: int) -> (cuts: Seq<int>)
    requires
        none_empty(segments),
        1 <= n <= segments.len(),
    ensures
        cut_at_boundaries(cuts, boundaries, n),
        ({
            let g = grouped(segments, boundaries, n);
            &&& g.segments.len() == cuts.len() - 1
            &&& g.current.len() > 0
            &&& g.current == run_of_segments(segments, cuts.last(), n)
            &&& forall|k: int|
                0 <= k < cuts.len() - 1 ==> #[trigger] g.segments[k] == trim(
                    run_of_segments(segments, cuts[k], cuts[k + 1]),
                )
        }),
    decreases n,
{
    let g = grouped(segments, boundaries, n);
    assert(segments[n - 1].len() > 0);
    if n == 1 {
        assert(grouped(segments, boundaries, 0).current.len() == 0);
        let cuts = seq![0int];
        assert(g.current == segments[0]);
        cuts
    } else {
        let old_cuts = runs_so_far(segments, boundaries, n - 1);
        let before = grouped(segments, boundaries, n - 1);
        if begins_group(boundaries, n - 1) {
            let cuts = old_cuts.push(n - 1);
            assert forall|i: int|
                0 < i < n && i < boundaries.len()
                    && #[trigger] boundaries[i] implies cuts.contains(i) by {
                if i < n - 1 {
                    let k = choose|k: int| 0 <= k < old_cuts.len() && old_cuts[k] == i;
                    assert(cuts[k] == i);
                } else {
                    assert(cuts[cuts.len() - 1] == i);
                }
            }
            assert(g.segments == before.segments.push(trim(before.current)));
            cuts
        } else {
            assert(old_cuts.last() < n - 1);
            assert(g.segments == before.segments);
            old_cuts
        }
    }
}

/// The active features are the first of those with a strength above zero, each with its
/// strength, in their order: no more than thirty-two, and all of them where there are no
/// more than that.
pub proof fn active_features_are_the_first(features: Seq<u32>, n: int)
    requires
        0 <= n <= features.len() <= usize::MAX,
    ensures
        ({
            let active = active_features(features, n);
            &&& active.len() <= 32
            &&& forall|k: int|
                0 <= k < active.len() ==> (#[trigger] active[k]).0 < n && active[k].1
                    == features[active[k].0 as int] && float_lt(0, active[k].1)
            &&& forall|j: int, k: int|
                0 <= j < k < active.len() ==> (#[trigger] active[j]).0 < (#[trigger] active[k]).0
            &&& forall|i: int|
                0 <= i < n && float_lt(0, #[trigger] features[i]) ==> active.contains(
                    (i as usize, features[i]),
                ) || (active.len() == 32 && active.last().0 < i)
        }),
    decreases n,
{
    if n > 0 {
        active_features_are_the_first(features, n - 1);
        let before = active_features(features, n - 1);
        let active = active_features(features, n);
        assert forall|i: int| 0 <= i < n && float_lt(0, #[trigger] features[i]) implies active.contains(
            (i as usize, features[i]),
        ) || (active.len() == 32 && active.last().0 < i) by {
            let e = (i as usize, features[i]);
            if i == n - 1 {
                if before.len() < 32 {
                    assert(active[active.len() - 1] == e);
                } else {
                    assert(before[31].0 < n - 1);
                }
            } else if before.contains(e) {
                let k = choose|k: int| 0 <= k < before.len() && before[k] == e;
                assert(active[k] == e);
            }
        }
    }
}

/// The tags are those of the active features: each comes from one of them, each of them
/// that has a tag gives it, and no tag comes twice in a row.
pub proof fn tags_are_those_of_the_features(
    map: Seq<(usize, String)>,
    active: Seq<(usize, u32)>,
    n: int,
)
    requires
        0 <= n <= active.len(),
    ensures
        ({
            let tags = tags_of(map, active, n);
            &&& forall|k: int|
                0 <= k < tags.len() ==> exists|i: int|
                    0 <= i < n && #[trigger] tag_of(map, active[i].0, 0) == Some(#[trigger] tags[k])
            &&& forall|i: int|
                0 <= i < n ==> match #[trigger] tag_of(map, active[i].0, 0) {
                    Some(t) => tags.contains(t),
                    None => true,
                }
            &&& forall|k: int| 0 <= k < tags.len() - 1 ==> #[trigger] tags[k] != tags[k + 1]
        }),
    decreases n,
{
    if n > 0 {
        tags_are_those_of_the_features(map, active, n - 1);
        let before = tags_of(map, active, n - 1);
        let tags = tags_of(map, active, n);
        let last = tag_of(map, active[n - 1].0, 0);
        assert forall|k: int| 0 <= k < tags.len() implies exists|i: int|
            0 <= i < n && #[trigger] tag_of(map, active[i].0, 0) == Some(#[trigger] tags[k]) by {
            if k < before.len() {
                let i = choose|i: int|
                    0 <= i < n - 1 && #[trigger] tag_of(map, active[i].0, 0) == Some(before[k]);
                assert(tag_of(map, active[i].0, 0) == Some(tags[k]));
            } else {
                assert(tag_of(map, active[n - 1].0, 0) == Some(tags[k]));
            }
        }
        assert forall|i: int| 0 <= i < n implies match #[trigger] tag_of(map, active[i].0, 0) {
            Some(t) => tags.contains(t),
            None => true,
        } by {
            if let Some(t) = tag_of(map, active[i].0, 0) {
                if i < n - 1 {
                    let k = choose|k: int| 0 <= k < before.len() && before[k] == t;
                    assert(tags[k] == t);
                } else {
                    assert(tags[tags.len() - 1] == t);
                }
            }
        }
    }
}

/// The tag of a feature is the first that the table gives it; a feature that the table
/// does not name has none.
pub proof fn first_tag_counts(map: Seq<(usize, String)>, feature: usize, from: int)
    requires
        0 <= from <= map.len(),
    ensures
        forall|i: int|
            from <= i < map.len() && (#[trigger] map[i]).0 == feature && (forall|j: int|
                from <= j < i ==> (#[trigger] map[j]).0 != feature) ==> tag_of(map, feature, from)
                == Some(map[i].1@),
        (forall|j: int| from <= j < map.len() ==> (#[trigger] map[j]).0 != feature) ==> tag_of(
            map,
            feature,
            from,
        ) is None,
    decreases map.len() - from,
{
    if from < map.len() {
        first_tag_counts(map, feature, from + 1);
    }
}

/// The groups that become chunks are those that are long enough, in their order.
pub proof fn long_groups_are_kept(groups: Seq<Seq<char>>, min: usize, n: int)
    requires
        0 <= n <= groups.len(),
    ensures
        ({
            let kept = kept_positions(groups, min, n);
            &&& forall|k: int|
                0 <= k < kept.len() ==> 0 <= #[trigger] kept[k] < n && byte_size(groups[kept[k]])
                    >= min
            &&& forall|j: int, k: int|
                0 <= j < k < kept.len() ==> #[trigger] kept[j] < #[trigger] kept[k]
            &&& forall|i: int|
                0 <= i < n && byte_size(#[trigger] groups[i]) >= min ==> kept.contains(i)
        }),
    decreases n,
{
    if n > 0 {
        long_groups_are_kept(groups, min, n - 1);
        let before = kept_positions(groups, min, n - 1);
        let kept = kept_positions(groups, min, n);
        assert forall|i: int|
            0 <= i < n && byte_size(#[trigger] groups[i]) >= min implies kept.contains(i) by {
            if i < n - 1 {
                let k = choose|k: int| 0 <= k < before.len() && before[k] == i;
                assert(kept[k] == i);
            } else {
                assert(kept[kept.len() - 1] == i);
            }
        }
    }
}

/// The context of a chunk that stands in the document is the chunk at its first place
/// there, with the two hundred bytes before it and the two hundred bytes after it, or as
/// many as there are.
pub proof fn context_surrounds_the_chunk(doc: Seq<u8>, chunk: Seq<u8>, at: int)
    requires
        bytes_at(doc, chunk, at),
        forall|i: int| 0 <= i < at ==> !#[trigger] bytes_at(doc, chunk, i),
    ensures
        ({
            let context = context_bytes(doc, chunk);
            let before = if at < 200 {
                at
            } else {
                200
            };
            let left = doc.len() - at - chunk.len();
            &&& bytes_at(context, chunk, before)
            &&& context.take(before) == doc.subrange(at - before, at)
            &&& context.len() == before + chunk.len() + if left < 200 {
                left
            } else {
                200
            }
            &&& context.skip(before + chunk.len()) == doc.subrange(
                at + chunk.len(),
                at - before + context.len(),
            )
        }),
{
    first_place(doc, chunk, 0, at);
    let context = context_bytes(doc, chunk);
    let before = if at < 200 {
        at
    } else {
        200
    };
    assert(context.subrange(before, before + chunk.len()) =~= doc.subrange(at, at + chunk.len()));
    assert(context.take(before) =~= doc.subrange(at - before, at));
    assert(context.skip(before + chunk.len()) =~= doc.subrange(
        at + chunk.len(),
        at - before + context.len(),
    ));
}

proof fn first_place(doc: Seq<u8>, chunk: Seq<u8>, from: int, at: int)
    requires
        0 <= from <= at,
        bytes_at(doc, chunk, at),
        forall|i: int| from <= i < at ==> !#[trigger] bytes_at(doc, chunk, i),
    ensures
        first_bytes(doc, chunk, from) == at,
    decreases at - from,
{
    if from < at {
        assert(!bytes_at(doc, chunk, from));
        first_place(doc, chunk, from + 1, at);
    }
}

/// The neighbours of a chunk are the chunk before it and the chunk after it, in that
/// order, as far as they exist.
pub proof fn neighbours_stand_beside(ids: Seq<u64>, k: int)
    requires
        0 <= k < ids.len(),
    ensures
        0 < k && k + 1 < ids.len() ==> neighbours(ids, k) == seq![ids[k - 1], ids[k + 1]],
        k == 0 && ids.len() > 1 ==> neighbours(ids, k) == seq![ids[1]],
        0 < k && k + 1 == ids.len() ==> neighbours(ids, k) == seq![ids[k - 1]],
        ids.len() == 1 ==> neighbours(ids, k) == Seq::<u64>::empty(),
{
    assert(neighbours(ids, k) =~= if ids.len() == 1 {
        Seq::<u64>::empty()
    } else if k == 0 {
        seq![ids[1]]
    } else if k + 1 == ids.len() {
        seq![ids[k - 1]]
    } else {
        seq![ids[k - 1], ids[k + 1]]
    });
}

/// A line begins a segment where it is empty or begins as a function, a heading or a class
/// does; no other line does.
pub proof fn headings_begin_segments(line: Seq<char>)
    ensures
        begins_segment(line) <==> {
            ||| line.len() == 0
            ||| "fn "@.is_prefix_of(line)
            ||| "pub fn "@.is_prefix_of(line)
            ||| "async fn "@.is_prefix_of(line)
            ||| "## "@.is_prefix_of(line)
            ||| "# "@.is_prefix_of(line)
            ||| "class "@.is_prefix_of(line)
            ||| "def "@.is_prefix_of(line)
            ||| "function "@.is_prefix_of(line)
        },
{
}

/// The embedding is the first sixty-four strengths, or all where there are fewer; where no
/// feature is active it is as long, and zero.
pub proof fn embeddings_are_the_first_strengths(features: Seq<u32>, i: int)
    requires
        0 <= i < embedding_of(features).len(),
    ensures
        embedding_of(features).len() == if features.len() < 64 {
            features.len()
        } else {
            64
        },
        (exists|k: int| 0 <= k < features.len() && float_lt(0, #[trigger] features[k]))
            ==> embedding_of(features)[i] == features[i],
        (forall|k: int| 0 <= k < features.len() ==> !float_lt(0, #[trigger] features[k]))
            ==> embedding_of(features)[i] == 0,
{
}

/// The header of a text is its first line without the white space round it, where that
/// begins as a heading, a function or a class does.
pub proof fn headers_come_from_the_first_line(line: Seq<char>, rest: Seq<char>)
    requires
        !line.contains('\n'),
        line.len() > 0,
        line.last() != '\r',
    ensures
        ({
            let head = trim(line);
            header_of(line.push('\n') + rest) == if "#"@.is_prefix_of(head) || "fn "@.is_prefix_of(
                head,
            ) || "pub fn "@.is_prefix_of(head) || "class "@.is_prefix_of(head)
                || "def "@.is_prefix_of(head) {
                Some(head)
            } else {
                None
            }
        }),
{
    let text = line.push('\n') + rest;
    let n = line.len() as int;
    assert forall|k: int| 0 <= k < n implies #[trigger] text[k] != '\n' by {
        assert(line.contains(line[k]));
    }
    assert(text[n] == '\n');
    line_runs_to(text, 0, n);
    assert(text[n - 1] == line.last());
    assert(text.subrange(0, n) =~= line);
    assert(lines_from(text, 0)[0] == line);
    let head = trim(line);
    assert(first_line(text) == head);
    assert("#"@.is_prefix_of(head) <==> starts_with(head, "#"@));
    assert("fn "@.is_prefix_of(head) <==> starts_with(head, "fn "@));
    assert("pub fn "@.is_prefix_of(head) <==> starts_with(head, "pub fn "@));
    assert("class "@.is_prefix_of(head) <==> starts_with(head, "class "@));
    assert("def "@.is_prefix_of(head) <==> starts_with(head, "def "@));
}

proof fn line_runs_to(s: Seq<char>, from: int, end: int)
    requires
        0 <= from <= end < s.len(),
        s[end] == '\n',
        forall|k: int| from <= k < end ==> #[trigger] s[k] != '\n',
    ensures
        line_end(s, from) == end,
    decreases end - from,
{
    if from < end {
        assert(s[from] != '\n');
        line_runs_to(s, from + 1, end);
    }
}

} // verus!
