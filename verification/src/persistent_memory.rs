//! What the system has learnt, kept from one model to the next: snapshots, their
//! merging, and the text in which they are stored.
//!
//! Numbers with a fraction are the bits of single-precision numbers. Where the
//! stored text shows them, it is handed their decimal text.

use vstd::prelude::*;

use crate::clock::{now, since_epoch, whole_seconds};
use crate::float_bits::{check_ge, check_lt, float_ge, float_lt, rank, rank_of};
use crate::memory_state::{
    decode_records, encode_records, records_in, stored_records_read_back,
};
use crate::named_map::{named_at, NamedMap};
use crate::number_code::{push_items, state_member};
use crate::numerals::{dec_reads_back, digit_run, numeral, parse_number, run_of_digits};
use crate::paths::{join_path, joined};
use crate::ranking::{is_ranking, rank_desc, ranking_of};
use crate::text::{
    check_space, dec, find_position, first_occurrence, from_chars, is_space, join, join_strings,
    occurs_at, position, push_dec, same, to_chars, trim_start, views,
};

verus! {

/// 0.1 in single precision.
pub const ONE_TENTH: u32 = 0x3DCC_CCCD;

/// 0.2 in single precision.
pub const ONE_FIFTH: u32 = 0x3E4C_CCCD;

/// 0.5 in single precision.
pub const ONE_HALF: u32 = 0x3F00_0000;

/// 0.9 in single precision.
pub const NINE_TENTHS: u32 = 0x3F66_6666;

// ─── Records ─────────────────────────────────────────────────────────────────

/// Settings of the steering that worked for a kind of task.
#[derive(Debug)]
pub struct SteeringPreset {
    pub name: String,
    pub task_signature: Vec<u32>,
    /// The feature, the strength and the mode of each vector.
    pub vectors: Vec<(usize, u32, String)>,
    pub hit_count: u64,
    pub success_rate: u32,
    pub origin_model: String,
}

/// A line of reasoning that led somewhere.
#[derive(Debug)]
pub struct PheromoneRecord {
    pub path_id: u64,
    pub embedding: Vec<u32>,
    pub strength: u32,
    pub created_at: u64,
    pub description: String,
}

/// A region about which too little is known.
#[derive(Debug)]
pub struct KnowledgeGapRecord {
    pub centroid: Vec<u32>,
    pub rejection_rate: u32,
    pub domain_tags: Vec<String>,
    pub access_count: u64,
    pub is_filled: bool,
    pub last_attempt: u64,
}

/// How well topics are covered.
pub struct TopicMap {
    pub topics: NamedMap<Vec<u32>>,
    pub coverage: NamedMap<u32>,
    pub chunk_count: NamedMap<u64>,
}

/// How many chunks a topic has.
pub open spec fn chunks_of(m: TopicMap, topic: Seq<char>) -> int {
    if m.chunk_count@.contains_key(topic) {
        m.chunk_count@[topic] as int
    } else {
        0
    }
}

/// The entries are those of `coverage` below one half, the least first and equal
/// ones in their order.
pub open spec fn weak_entries(entries: Seq<(String, u32)>, n: int) -> Seq<(Seq<char>, u32)>
    decreases n,
{
    if n <= 0 {
        Seq::empty()
    } else {
        let before = weak_entries(entries, n - 1);
        if float_lt(entries[n - 1].1, ONE_HALF) {
            before.push((entries[n - 1].0@, entries[n - 1].1))
        } else {
            before
        }
    }
}

/// Keys by which entries with a lower value come first.
pub open spec fn rising_keys(entries: Seq<(Seq<char>, u32)>) -> Seq<i128> {
    entries.map_values(|e: (Seq<char>, u32)| (-rank(e.1)) as i128)
}

impl TopicMap {
    pub open spec fn wf(&self) -> bool {
        self.topics.wf() && self.coverage.wf() && self.chunk_count.wf()
    }

    /// No topic.
    pub fn new() -> (m: TopicMap)
        ensures
            m.wf(),
            m.topics@ == Map::<Seq<char>, Vec<u32>>::empty(),
            m.coverage@ == Map::<Seq<char>, u32>::empty(),
            m.chunk_count@ == Map::<Seq<char>, u64>::empty(),
    {
        TopicMap {
            topics: NamedMap::new(),
            coverage: NamedMap::new(),
            chunk_count: NamedMap::new(),
        }
    }

    /// Counts a chunk of a topic, whose centre and coverage it changes to these.
    pub fn update_topic(&mut self, topic: &str, centroid: Vec<u32>, coverage: u32)
        requires
            old(self).wf(),
            chunks_of(*old(self), topic@) < u64::MAX,
        ensures
            final(self).wf(),
            final(self).chunk_count@ == old(self).chunk_count@.insert(
                topic@,
                (chunks_of(*old(self), topic@) + 1) as u64,
            ),
            final(self).topics@ == old(self).topics@.insert(topic@, centroid),
            final(self).coverage@ == old(self).coverage@.insert(topic@, coverage),
    {
        let count: u64 = match self.chunk_count.get(topic) {
            Some(n) => *n,
            None => 0,
        };
        self.chunk_count.insert(topic.to_string(), count + 1);
        self.topics.insert(topic.to_string(), centroid);
        self.coverage.insert(topic.to_string(), coverage);
    }

    /// The topics covered by less than one half, the least covered first.
    pub fn uncovered_topics(&self) -> (r: Vec<(String, u32)>)
        ensures
            ({
                let weak = weak_entries(
                    self.coverage.entries@,
                    self.coverage.entries@.len() as int,
                );
                let order = ranking_of(rising_keys(weak));
                &&& r@.len() == weak.len()
                &&& order.len() == weak.len()
                &&& forall|k: int|
                    0 <= k < r@.len() ==> ((#[trigger] r@[k]).0@, r@[k].1) == weak[order[k] as int]
            }),
    {
        let ghost entries = self.coverage.entries@;
        let mut names: Vec<String> = Vec::new();
        let mut values: Vec<u32> = Vec::new();
        let mut keys: Vec<i128> = Vec::new();
        let mut i: usize = 0;
        while i < self.coverage.entries.len()
            invariant
                entries == self.coverage.entries@,
                i <= entries.len(),
                names@.len() == weak_entries(entries, i as int).len(),
                values@.len() == names@.len(),
                keys@.len() == names@.len(),
                forall|k: int|
                    0 <= k < names@.len() ==> (#[trigger] names@[k])@ == weak_entries(
                        entries,
                        i as int,
                    )[k].0 && values@[k] == weak_entries(entries, i as int)[k].1 && keys@[k]
                        == -rank(values@[k]),
            decreases entries.len() - i,
        {
            let bits: u32 = self.coverage.entries[i].1;
            let ghost before = weak_entries(entries, i as int);
            let ghost after = weak_entries(entries, i + 1);
            assert(after == if float_lt(bits, ONE_HALF) {
                before.push((entries[i as int].0@, bits))
            } else {
                before
            });
            if check_lt(bits, ONE_HALF) {
                names.push(self.coverage.entries[i].0.clone());
                values.push(bits);
                keys.push((-rank_of(bits)) as i128);
                assert(names@.last()@ == after.last().0);
            }
            assert forall|k: int| 0 <= k < names@.len() implies (#[trigger] names@[k])@
                == after[k].0 && values@[k] == after[k].1 && keys@[k] == -rank(values@[k]) by {
                if k < before.len() {
                    assert(after[k] == before[k]);
                }
            }
            i = i + 1;
        }
        let ghost weak = weak_entries(entries, entries.len() as int);
        let order = rank_desc(&keys);
        assert forall|k: int| 0 <= k < keys@.len() implies keys@[k] == #[trigger] rising_keys(
            weak,
        )[k] by {
            assert(names@[k]@ == weak[k].0);
        }
        assert(keys@ =~= rising_keys(weak));
        let mut r: Vec<(String, u32)> = Vec::new();
        let mut k: usize = 0;
        while k < order.len()
            invariant
                order@ == ranking_of(rising_keys(weak)),
                is_ranking(rising_keys(weak), order@),
                order@.len() == weak.len(),
                names@.len() == weak.len(),
                values@.len() == weak.len(),
                k <= order@.len(),
                r@.len() == k,
                forall|j: int|
                    0 <= j < names@.len() ==> (#[trigger] names@[j])@ == weak[j].0 && values@[j]
                        == weak[j].1,
                forall|j: int|
                    0 <= j < k ==> ((#[trigger] r@[j]).0@, r@[j].1) == weak[order@[j] as int],
            decreases order@.len() - k,
        {
            let at: usize = order[k];
            assert(0 <= order@[k as int] < weak.len());
            r.push((names[at].clone(), values[at]));
            k = k + 1;
        }
        r
    }
}

impl Default for TopicMap {
    fn default() -> (m: TopicMap)
        ensures
            m.wf(),
            m.topics@ == Map::<Seq<char>, Vec<u32>>::empty(),
            m.coverage@ == Map::<Seq<char>, u32>::empty(),
            m.chunk_count@ == Map::<Seq<char>, u64>::empty(),
    {
        TopicMap::new()
    }
}

// ─── Snapshots ───────────────────────────────────────────────────────────────

/// What the system has learnt.
pub struct CognitiveSnapshot {
    pub created_at: u64,
    pub session_count: u64,
    pub chunks_indexed: u64,
    pub verified_insights: u64,
    pub topic_map: TopicMap,
    pub knowledge_gaps: Vec<KnowledgeGapRecord>,
    pub steering_presets: Vec<SteeringPreset>,
    pub pheromone_trails: Vec<PheromoneRecord>,
    pub golden_ngrams_count: u64,
    pub synapse_count: u64,
    pub last_model_name: String,
    pub schema_version: u32,
}

impl CognitiveSnapshot {
    pub open spec fn wf(&self) -> bool {
        self.topic_map.wf()
    }

    /// The snapshot holds no records.
    pub open spec fn is_bare(&self) -> bool {
        &&& self.wf()
        &&& self.topic_map.topics@ == Map::<Seq<char>, Vec<u32>>::empty()
        &&& self.topic_map.coverage@ == Map::<Seq<char>, u32>::empty()
        &&& self.topic_map.chunk_count@ == Map::<Seq<char>, u64>::empty()
        &&& self.knowledge_gaps@.len() == 0
        &&& self.steering_presets@.len() == 0
        &&& self.pheromone_trails@.len() == 0
    }

    /// An empty snapshot.
    pub fn new(model_name: &str) -> (s: CognitiveSnapshot)
        ensures
            s.is_bare(),
            s.session_count == 0,
            s.chunks_indexed == 0,
            s.verified_insights == 0,
            s.golden_ngrams_count == 0,
            s.synapse_count == 0,
            s.last_model_name@ == model_name@,
            s.schema_version == 1,
    {
        CognitiveSnapshot {
            created_at: Self::unix_timestamp(),
            session_count: 0,
            chunks_indexed: 0,
            verified_insights: 0,
            topic_map: TopicMap::new(),
            knowledge_gaps: Vec::new(),
            steering_presets: Vec::new(),
            pheromone_trails: Vec::new(),
            golden_ngrams_count: 0,
            synapse_count: 0,
            last_model_name: model_name.to_string(),
            schema_version: 1,
        }
    }

    fn unix_timestamp() -> u64 {
        match since_epoch(now()) {
            Some(d) => whole_seconds(d),
            None => 0,
        }
    }
}

// ─── Merging ─────────────────────────────────────────────────────────────────

/// One of the similarities is above nine tenths.
pub open spec fn is_known(similarities: Seq<u32>) -> bool {
    exists|k: int| 0 <= k < similarities.len() && float_lt(NINE_TENTHS, #[trigger] similarities[k])
}

/// The gaps among the first `n` that are open and not known already.
pub open spec fn inherited_gaps(
    gaps: Seq<KnowledgeGapRecord>,
    similarity: Seq<Vec<u32>>,
    n: int,
) -> Seq<KnowledgeGapRecord>
    decreases n,
{
    if n <= 0 {
        Seq::empty()
    } else {
        let before = inherited_gaps(gaps, similarity, n - 1);
        if !gaps[n - 1].is_filled && !is_known(similarity[n - 1]@) {
            before.push(gaps[n - 1])
        } else {
            before
        }
    }
}

/// A preset has this name.
pub open spec fn has_preset(presets: Seq<SteeringPreset>, name: Seq<char>) -> bool {
    exists|k: int| 0 <= k < presets.len() && (#[trigger] presets[k]).name@ == name
}

/// The presets among the first `n` whose name is new.
pub open spec fn inherited_presets(
    presets: Seq<SteeringPreset>,
    known: Seq<SteeringPreset>,
    n: int,
) -> Seq<SteeringPreset>
    decreases n,
{
    if n <= 0 {
        Seq::empty()
    } else {
        let before = inherited_presets(presets, known, n - 1);
        if has_preset(known, presets[n - 1].name@) {
            before
        } else {
            before.push(presets[n - 1])
        }
    }
}

/// The trails among the first `n` that are stronger than one fifth, with what is
/// left of their strength.
pub open spec fn inherited_trails(
    trails: Seq<PheromoneRecord>,
    decayed: Seq<u32>,
    n: int,
) -> Seq<PheromoneRecord>
    decreases n,
{
    if n <= 0 {
        Seq::empty()
    } else {
        let before = inherited_trails(trails, decayed, n - 1);
        if float_lt(ONE_FIFTH, trails[n - 1].strength) {
            before.push(PheromoneRecord { strength: decayed[n - 1], ..trails[n - 1] })
        } else {
            before
        }
    }
}

/// The topics of `new`, and of `old` those that `new` lacks.
pub open spec fn merged_topics(
    old_map: Map<Seq<char>, Vec<u32>>,
    new_map: Map<Seq<char>, Vec<u32>>,
) -> Map<Seq<char>, Vec<u32>> {
    old_map.union_prefer_right(new_map)
}

/// The coverage of `new`, and for topics that come from `old` that of `old`.
pub open spec fn merged_coverage(old_map: TopicMap, new_map: TopicMap) -> Map<Seq<char>, u32> {
    new_map.coverage@.union_prefer_right(
        old_map.coverage@.restrict(old_map.topics@.dom().difference(new_map.topics@.dom())),
    )
}

/// How many chunks a topic has: those of `new`, and for topics that come from `old`
/// those of `old`.
pub open spec fn merged_counts(old_map: TopicMap, new_map: TopicMap) -> Map<Seq<char>, u64> {
    new_map.chunk_count@.union_prefer_right(
        old_map.chunk_count@.restrict(old_map.topics@.dom().difference(new_map.topics@.dom())),
    )
}

fn check_known(similarities: &Vec<u32>) -> (b: bool)
    ensures
        b == is_known(similarities@),
{
    let mut k: usize = 0;
    while k < similarities.len()
        invariant
            k <= similarities@.len(),
            forall|j: int|
                0 <= j < k ==> !float_lt(NINE_TENTHS, #[trigger] similarities@[j]),
        decreases similarities@.len() - k,
    {
        if check_lt(NINE_TENTHS, similarities[k]) {
            assert(float_lt(NINE_TENTHS, similarities@[k as int]));
            return true;
        }
        k = k + 1;
    }
    false
}

fn check_preset(presets: &Vec<SteeringPreset>, n: usize, name: &str) -> (b: bool)
    requires
        n <= presets@.len(),
    ensures
        b == has_preset(presets@.take(n as int), name@),
{
    let ghost first = presets@.take(n as int);
    let mut k: usize = 0;
    while k < n
        invariant
            k <= n <= presets@.len(),
            first == presets@.take(n as int),
            forall|j: int| 0 <= j < k ==> (#[trigger] first[j]).name@ != name@,
        decreases n - k,
    {
        assert(first[k as int] == presets@[k as int]);
        if same(presets[k].name.as_str(), name) {
            return true;
        }
        k = k + 1;
    }
    false
}

// ─── The stored text ─────────────────────────────────────────────────────────

/// The decimal texts, with three places, of the numbers with a fraction that the
/// stored text shows.
pub struct RateTexts {
    pub gaps: Vec<String>,
    pub presets: Vec<String>,
    pub trails: Vec<String>,
}

/// A text with an apostrophe for each quotation mark.
pub open spec fn unquoted(s: Seq<char>) -> Seq<char> {
    s.map_values(
        |c: char|
            if c == '"' {
                '\''
            } else {
                c
            },
    )
}

fn push_unquoted(out: &mut String, s: &str)
    ensures
        final(out)@ == old(out)@ + unquoted(s@),
{
    let ghost before = out@;
    let v = to_chars(s);
    let mut i: usize = 0;
    assert(before + unquoted(s@).take(0) =~= before);
    while i < v.len()
        invariant
            v@ == s@,
            i <= v@.len(),
            out@ == before + unquoted(s@).take(i as int),
        decreases v@.len() - i,
    {
        let c: char = v[i];
        out.push(
            if c == '"' {
                '\''
            } else {
                c
            },
        );
        i = i + 1;
        assert(out@ =~= before + unquoted(s@).take(i as int));
    }
    assert(unquoted(s@).take(i as int) =~= unquoted(s@));
}

/// Texts in quotation marks.
pub open spec fn quoted_tags(tags: Seq<String>) -> Seq<Seq<char>> {
    tags.map_values(|t: String| "\""@ + t@ + "\""@)
}

/// The stored text of a gap.
pub open spec fn gap_text(g: KnowledgeGapRecord, rate: Seq<char>) -> Seq<char> {
    "{\"rejection_rate\":"@ + rate + ",\"access_count\":"@ + dec(g.access_count as nat)
        + ",\"is_filled\":"@ + (if g.is_filled {
        "true"@
    } else {
        "false"@
    }) + ",\"domain_tags\":["@ + join(quoted_tags(g.domain_tags@), ","@) + "]}"@
}

/// The stored text of a preset.
pub open spec fn preset_text(p: SteeringPreset, rate: Seq<char>) -> Seq<char> {
    "{\"name\":\""@ + p.name@ + "\",\"hit_count\":"@ + dec(p.hit_count as nat)
        + ",\"success_rate\":"@ + rate + ",\"origin_model\":\""@ + p.origin_model@ + "\"}"@
}

/// The stored text of a trail.
pub open spec fn trail_text(p: PheromoneRecord, strength: Seq<char>) -> Seq<char> {
    "{\"path_id\":"@ + dec(p.path_id as nat) + ",\"strength\":"@ + strength + ",\"description\":\""@
        + unquoted(p.description@) + "\"}"@
}

/// The stored texts of the first `n` gaps.
pub open spec fn gap_texts(gaps: Seq<KnowledgeGapRecord>, rates: Seq<String>, n: int) -> Seq<
    Seq<char>,
>
    decreases n,
{
    if n <= 0 {
        Seq::empty()
    } else {
        gap_texts(gaps, rates, n - 1).push(gap_text(gaps[n - 1], rates[n - 1]@))
    }
}

/// The stored texts of the first `n` presets.
pub open spec fn preset_texts(presets: Seq<SteeringPreset>, rates: Seq<String>, n: int) -> Seq<
    Seq<char>,
>
    decreases n,
{
    if n <= 0 {
        Seq::empty()
    } else {
        preset_texts(presets, rates, n - 1).push(preset_text(presets[n - 1], rates[n - 1]@))
    }
}

/// The stored texts of the trails among the first `n` that are stronger than one
/// tenth.
pub open spec fn trail_texts(trails: Seq<PheromoneRecord>, strengths: Seq<String>, n: int) -> Seq<
    Seq<char>,
>
    decreases n,
{
    if n <= 0 {
        Seq::empty()
    } else {
        let before = trail_texts(trails, strengths, n - 1);
        if float_lt(ONE_TENTH, trails[n - 1].strength) {
            before.push(trail_text(trails[n - 1], strengths[n - 1]@))
        } else {
            before
        }
    }
}

/// A key in quotation marks and a colon.
pub open spec fn quoted(key: Seq<char>) -> Seq<char> {
    "\""@ + key + "\":"@
}

/// The first `n` of keys with numbers, each with a comma behind it.
pub open spec fn number_fields(fields: Seq<(Seq<char>, nat)>, n: int) -> Seq<char>
    decreases n,
{
    if n <= 0 {
        Seq::empty()
    } else {
        number_fields(fields, n - 1) + quoted(fields[n - 1].0) + dec(fields[n - 1].1) + ","@
    }
}

/// The numbers that a stored snapshot begins with.
pub open spec fn numbers(s: CognitiveSnapshot) -> Seq<(Seq<char>, nat)> {
    seq![
        ("schema_version"@, s.schema_version as nat),
        ("created_at"@, s.created_at as nat),
        ("session_count"@, s.session_count as nat),
        ("chunks_indexed"@, s.chunks_indexed as nat),
        ("verified_insights"@, s.verified_insights as nat),
        ("golden_ngrams_count"@, s.golden_ngrams_count as nat),
        ("synapse_count"@, s.synapse_count as nat),
    ]
}

/// What follows the name of the model in a stored snapshot.
pub open spec fn stored_records(s: CognitiveSnapshot, rates: RateTexts) -> Seq<char> {
    number_fields(
        seq![
            ("knowledge_gaps_count"@, s.knowledge_gaps@.len()),
            ("steering_presets_count"@, s.steering_presets@.len()),
            ("pheromone_trails_count"@, s.pheromone_trails@.len()),
        ],
        3,
    ) + "\"knowledge_gaps\":["@ + join(
        gap_texts(s.knowledge_gaps@, rates.gaps@, s.knowledge_gaps@.len() as int),
        ","@,
    ) + "],\"steering_presets\":["@ + join(
        preset_texts(s.steering_presets@, rates.presets@, s.steering_presets@.len() as int),
        ","@,
    ) + "],\"pheromone_trails\":["@ + join(
        trail_texts(s.pheromone_trails@, rates.trails@, s.pheromone_trails@.len() as int),
        ","@,
    ) + "],"@ + state_member(s.state())
}

/// The stored text of a snapshot.
pub open spec fn stored(s: CognitiveSnapshot, rates: RateTexts) -> Seq<char> {
    "{"@ + number_fields(numbers(s), 7) + quoted("last_model_name"@) + "\""@ + unquoted(
        s.last_model_name@,
    ) + "\","@ + stored_records(s, rates)
}

fn push_number(out: &mut String, key: &str, n: u64)
    ensures
        final(out)@ == old(out)@ + (quoted(key@) + dec(n as nat) + ","@),
{
    let ghost before = out@;
    out.append("\"");
    out.append(key);
    out.append("\":");
    push_dec(out, n);
    out.append(",");
    assert(out@ =~= before + (quoted(key@) + dec(n as nat) + ","@));
}

proof fn next_field(head: Seq<char>, fields: Seq<(Seq<char>, nat)>, k: int)
    requires
        0 <= k < fields.len(),
    ensures
        (head + number_fields(fields, k)) + (quoted(fields[k].0) + dec(fields[k].1) + ","@) == head
            + number_fields(fields, k + 1),
{
    let a = number_fields(fields, k);
    let b = quoted(fields[k].0);
    let c = dec(fields[k].1);
    assert((head + a) + (b + c + ","@) =~= head + (a + b + c + ","@));
}

fn write_gap(g: &KnowledgeGapRecord, rate: &str) -> (s: String)
    ensures
        s@ == gap_text(*g, rate@),
{
    let mut tags: Vec<String> = Vec::new();
    let mut i: usize = 0;
    while i < g.domain_tags.len()
        invariant
            i <= g.domain_tags@.len(),
            tags@.len() == i,
            forall|j: int|
                0 <= j < i ==> (#[trigger] tags@[j])@ == quoted_tags(g.domain_tags@)[j],
        decreases g.domain_tags@.len() - i,
    {
        let mut t = "\"".to_string();
        t.append(g.domain_tags[i].as_str());
        t.append("\"");
        tags.push(t);
        i = i + 1;
    }
    assert(views(tags@) =~= quoted_tags(g.domain_tags@));
    let list = join_strings(&tags, ",");
    let mut s = "{\"rejection_rate\":".to_string();
    s.append(rate);
    s.append(",\"access_count\":");
    push_dec(&mut s, g.access_count);
    s.append(",\"is_filled\":");
    if g.is_filled {
        s.append("true");
    } else {
        s.append("false");
    }
    s.append(",\"domain_tags\":[");
    s.append(list.as_str());
    s.append("]}");
    s
}

fn write_preset(p: &SteeringPreset, rate: &str) -> (s: String)
    ensures
        s@ == preset_text(*p, rate@),
{
    let mut s = "{\"name\":\"".to_string();
    s.append(p.name.as_str());
    s.append("\",\"hit_count\":");
    push_dec(&mut s, p.hit_count);
    s.append(",\"success_rate\":");
    s.append(rate);
    s.append(",\"origin_model\":\"");
    s.append(p.origin_model.as_str());
    s.append("\"}");
    s
}

fn write_trail(p: &PheromoneRecord, strength: &str) -> (s: String)
    ensures
        s@ == trail_text(*p, strength@),
{
    let mut s = "{\"path_id\":".to_string();
    push_dec(&mut s, p.path_id);
    s.append(",\"strength\":");
    s.append(strength);
    s.append(",\"description\":\"");
    push_unquoted(&mut s, p.description.as_str());
    s.append("\"}");
    s
}

/// The number behind the first `"key":` of a text.
pub open spec fn number_of(json: Seq<char>, key: Seq<char>) -> Option<nat> {
    match position(json, quoted(key), 0) {
        None => None,
        Some(i) => {
            let rest = trim_start(json.skip(i + quoted(key).len()));
            numeral(rest.take(digit_run(rest, 0)), u64::MAX as nat)
        },
    }
}

/// The text in quotation marks behind the first `"key":"` of a text.
pub open spec fn text_of(json: Seq<char>, key: Seq<char>) -> Option<Seq<char>> {
    match position(json, quoted(key) + "\""@, 0) {
        None => None,
        Some(i) => {
            let start = i + quoted(key).len() + 1;
            match position(json, "\""@, start) {
                None => None,
                Some(end) => Some(json.subrange(start, end)),
            }
        },
    }
}

/// A number, or what stands for one that is missing.
pub open spec fn number_or(n: Option<nat>, other: nat) -> nat {
    match n {
        Some(v) => v,
        None => other,
    }
}

fn quoted_chars(key: &str, with_quote: bool) -> (v: Vec<char>)
    ensures
        v@ == quoted(key@) + (if with_quote {
            "\""@
        } else {
            Seq::<char>::empty()
        }),
{
    let mut s = "\"".to_string();
    s.append(key);
    s.append("\":");
    assert(s@ =~= quoted(key@));
    if with_quote {
        s.append("\"");
    }
    assert(s@ =~= quoted(key@) + (if with_quote {
        "\""@
    } else {
        Seq::<char>::empty()
    }));
    to_chars(s.as_str())
}

fn extract_u64(v: &Vec<char>, key: &str) -> (r: Option<u64>)
    ensures
        match (r, number_of(v@, key@)) {
            (Some(a), Some(b)) => a == b,
            (None, None) => true,
            _ => false,
        },
{
    let pattern = quoted_chars(key, false);
    assert(pattern@ =~= quoted(key@));
    let n: usize = v.len();
    let start: usize = match find_position(v, &pattern, 0) {
        Some(i) => {
            assert(i + pattern.len() <= v.len());
            i + pattern.len()
        },
        None => {
            return None;
        },
    };
    let mut at: usize = start;
    while at < n && check_space(v[at])
        invariant
            n == v@.len(),
            start <= at <= n,
            trim_start(v@.skip(start as int)) == trim_start(v@.skip(at as int)),
        decreases n - at,
    {
        assert(v@.skip(at as int).skip(1) =~= v@.skip(at + 1));
        at = at + 1;
    }
    let ghost rest = v@.skip(at as int);
    assert(trim_start(v@.skip(start as int)) == rest);
    let mut end: usize = at;
    while end < n && '0' <= v[end] && v[end] <= '9'
        invariant
            n == v@.len(),
            at <= end <= n,
            rest == v@.skip(at as int),
            digit_run(rest, 0) == digit_run(rest, end - at),
        decreases n - end,
    {
        end = end + 1;
    }
    assert(v@.subrange(at as int, end as int) =~= rest.take(end - at));
    assert(digit_run(rest, end - at) == end - at);
    parse_number(v, at, end, u64::MAX)
}

fn extract_str(v: &Vec<char>, key: &str) -> (r: Option<String>)
    ensures
        match (r, text_of(v@, key@)) {
            (Some(a), Some(b)) => a@ == b,
            (None, None) => true,
            _ => false,
        },
{
    let pattern = quoted_chars(key, true);
    let quote = to_chars("\"");
    proof {
        reveal_strlit("\"");
    }
    let start: usize = match find_position(v, &pattern, 0) {
        Some(i) => {
            assert(i + pattern.len() <= v.len());
            i + pattern.len()
        },
        None => {
            return None;
        },
    };
    match find_position(v, &quote, start) {
        Some(end) => Some(from_chars(v, start, end)),
        None => None,
    }
}

// ─── The memory ──────────────────────────────────────────────────────────────

pub const SNAPSHOT_FILE: &'static str = "cognitive_snapshot.json";

pub const RAG_INDEX_FILE: &'static str = "rag_index.json";

pub const SCHEMA_VERSION: u32 = 1;

/// How many of the first `n` values are at least one half.
pub open spec fn covered_count(entries: Seq<(String, u32)>, n: int) -> nat
    decreases n,
{
    if n <= 0 {
        0
    } else {
        covered_count(entries, n - 1) + if float_ge(entries[n - 1].1, ONE_HALF) {
            1nat
        } else {
            0nat
        }
    }
}

/// How many of the first `n` gaps are open.
pub open spec fn open_count(gaps: Seq<KnowledgeGapRecord>, n: int) -> nat
    decreases n,
{
    if n <= 0 {
        0
    } else {
        open_count(gaps, n - 1) + if gaps[n - 1].is_filled {
            0nat
        } else {
            1nat
        }
    }
}

/// How many of the first `n` trails are stronger than one fifth.
pub open spec fn strong_count(trails: Seq<PheromoneRecord>, n: int) -> nat
    decreases n,
{
    if n <= 0 {
        0
    } else {
        strong_count(trails, n - 1) + if float_lt(ONE_FIFTH, trails[n - 1].strength) {
            1nat
        } else {
            0nat
        }
    }
}

/// The first three presets with their rates in percent, or fewer.
pub open spec fn top_presets(presets: Seq<SteeringPreset>, percents: Seq<String>, n: int) -> Seq<
    Seq<char>,
>
    decreases n,
{
    if n <= 0 {
        Seq::empty()
    } else {
        top_presets(presets, percents, n - 1).push(
            "'"@ + presets[n - 1].name@ + "'("@ + percents[n - 1]@ + "%)"@,
        )
    }
}

/// `n`, or 3 if it is more.
pub open spec fn at_most_three(n: int) -> int {
    if n < 3 {
        n
    } else {
        3
    }
}

/// What the first presets are shown as.
pub open spec fn shown_presets(presets: Seq<SteeringPreset>, percents: Seq<String>) -> Seq<char> {
    let shown = join(
        top_presets(presets, percents, at_most_three(presets.len() as int)),
        ", "@,
    );
    if shown.len() == 0 {
        "(nenhum ainda)"@
    } else {
        shown
    }
}

/// The report on a snapshot.
pub open spec fn report_text(s: CognitiveSnapshot, percents: Seq<String>) -> Seq<char> {
    "=== Relatório da Memória Cognitiva Persistente ===\nSessões: "@ + dec(s.session_count as nat)
        + " | Chunks RAG: "@ + dec(s.chunks_indexed as nat) + " | Insights verificados: "@ + dec(
        s.verified_insights as nat,
    ) + "\nDomínios conhecidos: "@ + dec(
        covered_count(
            s.topic_map.coverage.entries@,
            s.topic_map.coverage.entries@.len() as int,
        ),
    ) + "/"@ + dec(s.topic_map.topics.entries@.len()) + " cobertos ≥ 50%\nBuracos abertos: "@ + dec(
        open_count(s.knowledge_gaps@, s.knowledge_gaps@.len() as int),
    ) + " | Feromônios ativos: "@ + dec(
        strong_count(s.pheromone_trails@, s.pheromone_trails@.len() as int),
    ) + "\nPresets de Steering: "@ + dec(s.steering_presets@.len()) + " | Top: "@ + shown_presets(
        s.steering_presets@,
        percents,
    ) + "\nN-grams memoizados: "@ + dec(s.golden_ngrams_count as nat) + " | Sinapses: "@ + dec(
        s.synapse_count as nat,
    ) + "\nÚltimo modelo: '"@ + s.last_model_name@ + "' | Schema: v"@ + dec(s.schema_version as nat)
}

/// Where snapshots are kept.
#[derive(Debug)]
pub struct PersistentMemory {
    pub store_path: String,
    pub schema_version: u32,
}

impl PersistentMemory {
    /// A memory in a directory.
    pub fn new(store_path: &str) -> (m: PersistentMemory)
        ensures
            m.store_path@ == store_path@,
            m.schema_version == SCHEMA_VERSION,
    {
        PersistentMemory { store_path: store_path.to_string(), schema_version: SCHEMA_VERSION }
    }

    /// The file of the snapshot.
    pub fn snapshot_path(&self) -> (s: String)
        ensures
            s@ == joined(self.store_path@, SNAPSHOT_FILE@),
    {
        join_path(self.store_path.as_str(), SNAPSHOT_FILE)
    }

    /// Whether the memory can be used, given whether its path exists and is a
    /// directory.
    pub fn is_accessible(&self, exists_: bool, is_dir: bool) -> (b: bool)
        ensures
            b == (exists_ && is_dir),
    {
        exists_ && is_dir
    }

    /// Puts two snapshots together. Counters add up; what `new` lacks of what is
    /// still of use in `old` is taken over. `similarity` holds how similar each
    /// gap of `old` is to each of `new`, and `decayed` what is left of the
    /// strength of each trail of `old`.
    pub fn merge_snapshots(
        old_snapshot: CognitiveSnapshot,
        new_snapshot: CognitiveSnapshot,
        similarity: &Vec<Vec<u32>>,
        decayed: &Vec<u32>,
    ) -> (m: CognitiveSnapshot)
        requires
            old_snapshot.wf(),
            new_snapshot.wf(),
            similarity@.len() == old_snapshot.knowledge_gaps@.len(),
            decayed@.len() == old_snapshot.pheromone_trails@.len(),
            old_snapshot.session_count + new_snapshot.session_count <= u64::MAX,
            old_snapshot.chunks_indexed + new_snapshot.chunks_indexed <= u64::MAX,
            old_snapshot.verified_insights + new_snapshot.verified_insights <= u64::MAX,
            old_snapshot.synapse_count + new_snapshot.synapse_count <= u64::MAX,
        ensures
            m.wf(),
            m.created_at == new_snapshot.created_at,
            m.last_model_name == new_snapshot.last_model_name,
            m.schema_version == new_snapshot.schema_version,
            m.session_count == old_snapshot.session_count + new_snapshot.session_count,
            m.chunks_indexed == old_snapshot.chunks_indexed + new_snapshot.chunks_indexed,
            m.verified_insights == old_snapshot.verified_insights + new_snapshot.verified_insights,
            m.synapse_count == old_snapshot.synapse_count + new_snapshot.synapse_count,
            m.golden_ngrams_count == if old_snapshot.golden_ngrams_count
                > new_snapshot.golden_ngrams_count {
                old_snapshot.golden_ngrams_count
            } else {
                new_snapshot.golden_ngrams_count
            },
            m.knowledge_gaps@ == new_snapshot.knowledge_gaps@ + inherited_gaps(
                old_snapshot.knowledge_gaps@,
                similarity@,
                old_snapshot.knowledge_gaps@.len() as int,
            ),
            m.steering_presets@ == new_snapshot.steering_presets@ + inherited_presets(
                old_snapshot.steering_presets@,
                new_snapshot.steering_presets@,
                old_snapshot.steering_presets@.len() as int,
            ),
            m.pheromone_trails@ == new_snapshot.pheromone_trails@ + inherited_trails(
                old_snapshot.pheromone_trails@,
                decayed@,
                old_snapshot.pheromone_trails@.len() as int,
            ),
            m.topic_map.topics@ == merged_topics(
                old_snapshot.topic_map.topics@,
                new_snapshot.topic_map.topics@,
            ),
            m.topic_map.coverage@ == merged_coverage(
                old_snapshot.topic_map,
                new_snapshot.topic_map,
            ),
            m.topic_map.chunk_count@ == merged_counts(
                old_snapshot.topic_map,
                new_snapshot.topic_map,
            ),
    {
        let CognitiveSnapshot {
            created_at,
            session_count,
            chunks_indexed,
            verified_insights,
            topic_map,
            knowledge_gaps,
            steering_presets,
            pheromone_trails,
            golden_ngrams_count,
            synapse_count,
            last_model_name,
            schema_version,
        } = new_snapshot;
        let gaps = merge_gaps(old_snapshot.knowledge_gaps, knowledge_gaps, similarity);
        let presets = merge_presets(old_snapshot.steering_presets, steering_presets);
        let trails = merge_trails(old_snapshot.pheromone_trails, pheromone_trails, decayed);
        let topics = merge_topics(old_snapshot.topic_map, topic_map);
        CognitiveSnapshot {
            created_at,
            session_count: old_snapshot.session_count + session_count,
            chunks_indexed: old_snapshot.chunks_indexed + chunks_indexed,
            verified_insights: old_snapshot.verified_insights + verified_insights,
            topic_map: topics,
            knowledge_gaps: gaps,
            steering_presets: presets,
            pheromone_trails: trails,
            golden_ngrams_count: if old_snapshot.golden_ngrams_count > golden_ngrams_count {
                old_snapshot.golden_ngrams_count
            } else {
                golden_ngrams_count
            },
            synapse_count: old_snapshot.synapse_count + synapse_count,
            last_model_name,
            schema_version,
        }
    }

    /// A report on what is known and what is not. `percents` holds the success
    /// rates of the first presets in percent, without places.
    pub fn knowledge_report(&self, snapshot: &CognitiveSnapshot, percents: &Vec<String>) -> (r:
        String)
        requires
            percents@.len() >= at_most_three(snapshot.steering_presets@.len() as int),
        ensures
            r@ == report_text(*snapshot, percents@),
    {
        let covered: usize = count_covered(&snapshot.topic_map.coverage.entries);
        let open: usize = count_open(&snapshot.knowledge_gaps);
        let strong: usize = count_strong(&snapshot.pheromone_trails);
        let top = show_presets(&snapshot.steering_presets, percents);
        let mut s = "=== Relatório da Memória Cognitiva Persistente ===\nSessões: ".to_string();
        push_dec(&mut s, snapshot.session_count);
        s.append(" | Chunks RAG: ");
        push_dec(&mut s, snapshot.chunks_indexed);
        s.append(" | Insights verificados: ");
        push_dec(&mut s, snapshot.verified_insights);
        s.append("\nDomínios conhecidos: ");
        push_dec(&mut s, covered as u64);
        s.append("/");
        push_dec(&mut s, snapshot.topic_map.topics.entries.len() as u64);
        s.append(" cobertos ≥ 50%\nBuracos abertos: ");
        push_dec(&mut s, open as u64);
        s.append(" | Feromônios ativos: ");
        push_dec(&mut s, strong as u64);
        s.append("\nPresets de Steering: ");
        push_dec(&mut s, snapshot.steering_presets.len() as u64);
        s.append(" | Top: ");
        s.append(top.as_str());
        s.append("\nN-grams memoizados: ");
        push_dec(&mut s, snapshot.golden_ngrams_count);
        s.append(" | Sinapses: ");
        push_dec(&mut s, snapshot.synapse_count);
        s.append("\nÚltimo modelo: '");
        s.append(snapshot.last_model_name.as_str());
        s.append("' | Schema: v");
        push_dec(&mut s, snapshot.schema_version as u64);
        s
    }

    /// The text in which a snapshot is stored. The counters and a summary of the
    /// records can be read in it; the records stand in full, as numbers, at its end.
    pub fn snapshot_to_json(&self, s: &CognitiveSnapshot, rates: &RateTexts) -> (r: String)
        requires
            rates.gaps@.len() == s.knowledge_gaps@.len(),
            rates.presets@.len() == s.steering_presets@.len(),
            rates.trails@.len() == s.pheromone_trails@.len(),
        ensures
            r@ == stored(*s, *rates),
            s.countable(),
    {
        let records = write_records(s, rates);
        let mut r = "{".to_string();
        let ghost fields = numbers(*s);
        assert("{"@ + number_fields(fields, 0) =~= "{"@);
        push_number(&mut r, "schema_version", s.schema_version as u64);
        proof {
            next_field("{"@, fields, 0);
        }
        push_number(&mut r, "created_at", s.created_at);
        proof {
            next_field("{"@, fields, 1);
        }
        push_number(&mut r, "session_count", s.session_count);
        proof {
            next_field("{"@, fields, 2);
        }
        push_number(&mut r, "chunks_indexed", s.chunks_indexed);
        proof {
            next_field("{"@, fields, 3);
        }
        push_number(&mut r, "verified_insights", s.verified_insights);
        proof {
            next_field("{"@, fields, 4);
        }
        push_number(&mut r, "golden_ngrams_count", s.golden_ngrams_count);
        proof {
            next_field("{"@, fields, 5);
        }
        push_number(&mut r, "synapse_count", s.synapse_count);
        proof {
            next_field("{"@, fields, 6);
        }
        assert(r@ == "{"@ + number_fields(fields, 7));
        let ghost head = r@;
        r.append("\"");
        r.append("last_model_name");
        r.append("\":");
        assert(r@ =~= head + quoted("last_model_name"@));
        r.append("\"");
        push_unquoted(&mut r, s.last_model_name.as_str());
        r.append("\",");
        r.append(records.as_str());
        r
    }

    /// The snapshot that a stored text holds: the counters, the name of the model
    /// and the records. A text that does not end with records has none.
    pub fn json_to_snapshot(&self, json: &str) -> (r: Option<CognitiveSnapshot>)
        ensures
            r is Some,
            ({
                let s = r->0;
                &&& s.wf()
                &&& s.records() == records_in(json@)
                &&& s.schema_version == number_or(number_of(json@, "schema_version"@), 1) as u32
                &&& s.created_at == number_or(number_of(json@, "created_at"@), 0)
                &&& s.session_count == number_or(number_of(json@, "session_count"@), 0)
                &&& s.chunks_indexed == number_or(number_of(json@, "chunks_indexed"@), 0)
                &&& s.verified_insights == number_or(number_of(json@, "verified_insights"@), 0)
                &&& s.golden_ngrams_count == number_or(number_of(json@, "golden_ngrams_count"@), 0)
                &&& s.synapse_count == number_or(number_of(json@, "synapse_count"@), 0)
                &&& s.last_model_name@ == match text_of(json@, "last_model_name"@) {
                    Some(n) => n,
                    None => "unknown"@,
                }
            }),
    {
        let v = to_chars(json);
        let schema_version: u64 = match extract_u64(&v, "schema_version") {
            Some(n) => n,
            None => 1,
        };
        let created_at: u64 = match extract_u64(&v, "created_at") {
            Some(n) => n,
            None => 0,
        };
        let session_count: u64 = match extract_u64(&v, "session_count") {
            Some(n) => n,
            None => 0,
        };
        let chunks_indexed: u64 = match extract_u64(&v, "chunks_indexed") {
            Some(n) => n,
            None => 0,
        };
        let verified_insights: u64 = match extract_u64(&v, "verified_insights") {
            Some(n) => n,
            None => 0,
        };
        let golden_ngrams_count: u64 = match extract_u64(&v, "golden_ngrams_count") {
            Some(n) => n,
            None => 0,
        };
        let synapse_count: u64 = match extract_u64(&v, "synapse_count") {
            Some(n) => n,
            None => 0,
        };
        let last_model_name = match extract_str(&v, "last_model_name") {
            Some(s) => s,
            None => "unknown".to_string(),
        };
        let (topic_map, (knowledge_gaps, steering_presets, pheromone_trails)) = decode_records(&v);
        Some(
            CognitiveSnapshot {
                schema_version: schema_version as u32,
                created_at,
                session_count,
                chunks_indexed,
                verified_insights,
                golden_ngrams_count,
                synapse_count,
                last_model_name,
                topic_map,
                knowledge_gaps,
                steering_presets,
                pheromone_trails,
            },
        )
    }

    /// The snapshot in a file, given what the file holds; none where there is no
    /// file.
    pub fn load_snapshot(&self, contents: Option<&str>) -> (r: Option<CognitiveSnapshot>)
        ensures
            r is Some == contents is Some,
            contents is Some ==> ({
                let json = contents->0@;
                let s = r->0;
                &&& s.wf()
                &&& s.records() == records_in(json)
                &&& s.schema_version == number_or(number_of(json, "schema_version"@), 1) as u32
                &&& s.created_at == number_or(number_of(json, "created_at"@), 0)
                &&& s.session_count == number_or(number_of(json, "session_count"@), 0)
                &&& s.chunks_indexed == number_or(number_of(json, "chunks_indexed"@), 0)
                &&& s.verified_insights == number_or(number_of(json, "verified_insights"@), 0)
                &&& s.golden_ngrams_count == number_or(number_of(json, "golden_ngrams_count"@), 0)
                &&& s.synapse_count == number_or(number_of(json, "synapse_count"@), 0)
                &&& s.last_model_name@ == match text_of(json, "last_model_name"@) {
                    Some(n) => n,
                    None => "unknown"@,
                }
            }),
    {
        match contents {
            Some(json) => self.json_to_snapshot(json),
            None => None,
        }
    }
}

// ─── Laws of the stored text ─────────────────────────────────────────────────

/// A key without quotation marks and colons.
pub open spec fn plain_key(key: Seq<char>) -> bool {
    key.len() > 0 && forall|i: int| 0 <= i < key.len() ==> #[trigger] key[i] != '"' && key[i] != ':'
}

/// The stored text that begins with these fields and goes on with `tail`.
spec fn text_with(fields: Seq<(Seq<char>, nat)>, n: int, tail: Seq<char>) -> Seq<char> {
    "{"@ + number_fields(fields, n) + tail
}

proof fn quoted_at(key: Seq<char>)
    ensures
        quoted(key).len() == key.len() + 3,
        quoted(key)[0] == '"',
        forall|i: int| 1 <= i <= key.len() ==> #[trigger] quoted(key)[i] == key[i - 1],
        quoted(key)[key.len() as int + 1] == '"',
        quoted(key)[key.len() as int + 2] == ':',
{
    reveal_strlit("\"");
    reveal_strlit("\":");
}

/// Behind the fields before it, a field is the first to have its key.
proof fn no_earlier_key(fields: Seq<(Seq<char>, nat)>, n: int, tail: Seq<char>, key: Seq<char>)
    requires
        0 <= n <= fields.len(),
        plain_key(key),
        forall|i: int| 0 <= i < n ==> plain_key((#[trigger] fields[i]).0) && fields[i].0 != key,
    ensures
        forall|j: int|
            0 <= j <= number_fields(fields, n).len() ==> !#[trigger] occurs_at(
                text_with(fields, n, tail),
                quoted(key),
                j,
            ),
    decreases n,
{
    let text = text_with(fields, n, tail);
    let pat = quoted(key);
    reveal_strlit("{");
    quoted_at(key);
    if n <= 0 {
        assert forall|j: int| 0 <= j <= number_fields(fields, n).len() implies !#[trigger] occurs_at(
            text,
            pat,
            j,
        ) by {
            if occurs_at(text, pat, j) {
                assert(text.subrange(0, pat.len() as int)[0] == text[0]);
            }
        }
    } else {
        let name = fields[n - 1].0;
        let digits = dec(fields[n - 1].1);
        let before = number_fields(fields, n - 1);
        let last = quoted(name) + digits + ","@;
        let b: int = 1 + before.len() as int;
        reveal_strlit(",");
        quoted_at(name);
        dec_reads_back(fields[n - 1].1);
        assert(number_fields(fields, n) =~= before + last);
        assert(text =~= text_with(fields, n - 1, last + tail));
        no_earlier_key(fields, n - 1, last + tail, key);
        assert(plain_key(name) && name != key);
        assert forall|i: int| 0 <= i < last.len() implies text[b + i] == #[trigger] last[i] by {}
        assert forall|j: int| 0 <= j <= number_fields(fields, n).len() implies !#[trigger] occurs_at(
            text,
            pat,
            j,
        ) by {
            if j >= b && occurs_at(text, pat, j) {
                let i = j - b;
                assert forall|m: int| 0 <= m < pat.len() implies text[j + m] == #[trigger] pat[m] by {
                    assert(text.subrange(j, j + pat.len())[m] == text[j + m]);
                }
                assert(text[j + 0] == pat[0]);
                if i < last.len() {
                    assert(last[i] == '"');
                    if i == 0 {
                        key_differs(text, b, name, key);
                    } else if i <= name.len() {
                        assert(last[i] == name[i - 1]);
                    } else if i == name.len() + 1 {
                        assert(text[j + 1] == pat[1]);
                        assert(last[i + 1] == ':');
                        assert(pat[1] == key[0]);
                    } else if i < name.len() + 3 {
                        assert(last[i] == ':');
                    } else if i < name.len() + 3 + digits.len() {
                        assert(last[i] == digits[i - name.len() - 3]);
                    }
                }
            }
        }
    }
}

/// Where one quoted key stands, no other does.
proof fn key_differs(text: Seq<char>, at: int, name: Seq<char>, key: Seq<char>)
    requires
        plain_key(name),
        plain_key(key),
        0 <= at,
        at + name.len() + 3 <= text.len(),
        forall|i: int| 0 <= i < name.len() + 3 ==> text[at + i] == #[trigger] quoted(name)[i],
        occurs_at(text, quoted(key), at),
    ensures
        name == key,
{
    quoted_at(name);
    quoted_at(key);
    let pat = quoted(key);
    assert forall|m: int| 0 <= m < pat.len() implies text[at + m] == #[trigger] pat[m] by {
        assert(text.subrange(at, at + pat.len())[m] == text[at + m]);
    }
    if key.len() < name.len() {
        assert(pat[key.len() as int + 1] == '"');
        assert(quoted(name)[key.len() as int + 1] == name[key.len() as int]);
    } else if name.len() < key.len() {
        assert(quoted(name)[name.len() as int + 1] == '"');
        assert(pat[name.len() as int + 1] == key[name.len() as int]);
    } else {
        assert forall|i: int| 0 <= i < name.len() implies name[i] == key[i] by {
            assert(quoted(name)[i + 1] == name[i]);
            assert(pat[i + 1] == key[i]);
        }
        assert(name =~= key);
    }
}

/// The fields behind the first `k`.
spec fn fields_from(fields: Seq<(Seq<char>, nat)>, k: int, n: int) -> Seq<char>
    decreases n - k,
{
    if k >= n {
        Seq::empty()
    } else {
        quoted(fields[k].0) + dec(fields[k].1) + ","@ + fields_from(fields, k + 1, n)
    }
}

proof fn fields_split(fields: Seq<(Seq<char>, nat)>, k: int, n: int)
    requires
        0 <= k <= n,
    ensures
        number_fields(fields, n) == number_fields(fields, k) + fields_from(fields, k, n),
    decreases n - k,
{
    if k >= n {
        assert(number_fields(fields, n) =~= number_fields(fields, k) + fields_from(fields, k, n));
    } else {
        fields_split(fields, k + 1, n);
        assert(number_fields(fields, k + 1) =~= number_fields(fields, k) + quoted(fields[k].0)
            + dec(fields[k].1) + ","@);
        assert(number_fields(fields, n) =~= number_fields(fields, k) + fields_from(fields, k, n));
    }
}

/// Keys differ from each other.
pub open spec fn keys_differ(fields: Seq<(Seq<char>, nat)>) -> bool {
    &&& forall|i: int| 0 <= i < fields.len() ==> plain_key((#[trigger] fields[i]).0)
    &&& forall|i: int, j: int|
        0 <= i < j < fields.len() ==> (#[trigger] fields[i]).0 != (#[trigger] fields[j]).0
}

proof fn number_reads_back(fields: Seq<(Seq<char>, nat)>, k: int, tail: Seq<char>)
    requires
        0 <= k < fields.len(),
        keys_differ(fields),
        fields[k].1 <= u64::MAX,
    ensures
        number_of(text_with(fields, fields.len() as int, tail), fields[k].0) == Some(fields[k].1),
{
    let n = fields.len() as int;
    let text = text_with(fields, n, tail);
    let key = fields[k].0;
    let digits = dec(fields[k].1);
    let more = fields_from(fields, k + 1, n) + tail;
    let rest = quoted(key) + digits + ","@ + more;
    let head = "{"@ + number_fields(fields, k);
    reveal_strlit("{");
    fields_split(fields, k, n);
    assert(text =~= head + rest) by {
        let here = quoted(key) + digits + ","@;
        assert(fields_from(fields, k, n) == here + fields_from(fields, k + 1, n));
        assert((here + fields_from(fields, k + 1, n)) + tail =~= here + more);
    }
    assert(text == text_with(fields, k, rest));
    no_earlier_key(fields, k, rest, key);
    assert(head.len() == 1 + number_fields(fields, k).len());
    number_found(head, key, fields[k].1, more);
}

proof fn number_found(head: Seq<char>, key: Seq<char>, v: nat, more: Seq<char>)
    requires
        v <= u64::MAX,
        forall|j: int|
            0 <= j < head.len() ==> !#[trigger] occurs_at(
                head + (quoted(key) + dec(v) + ","@ + more),
                quoted(key),
                j,
            ),
    ensures
        number_of(head + (quoted(key) + dec(v) + ","@ + more), key) == Some(v),
{
    let digits = dec(v);
    let pat = quoted(key);
    let text = head + (pat + digits + ","@ + more);
    let at = head.len() as int;
    reveal_strlit(",");
    dec_reads_back(v);
    assert(text.subrange(at, at + pat.len()) =~= pat);
    assert(first_occurrence(text, pat, 0, at));
    let i = choose|i: int| first_occurrence(text, pat, 0, i);
    assert(first_occurrence(text, pat, 0, i));
    assert(i == at);
    let rest = text.skip(at + pat.len());
    assert(rest =~= digits + (","@ + more));
    assert forall|m: int| 0 <= m < digits.len() implies '0' <= #[trigger] rest[m] <= '9' by {
        assert(rest[m] == digits[m]);
    }
    assert(!is_space(rest[0]));
    assert(trim_start(rest) == rest);
    assert(rest[digits.len() as int] == ',');
    run_of_digits(rest, digits.len() as int, 0);
    let taken = rest.take(digits.len() as int);
    assert(taken =~= digits);
    assert(taken[0] != '+');
}

/// The keys of a stored snapshot are plain and differ.
proof fn stored_keys(s: CognitiveSnapshot)
    ensures
        keys_differ(numbers(s)),
        plain_key("last_model_name"@),
        forall|i: int| 0 <= i < 7 ==> (#[trigger] numbers(s)[i]).0 != "last_model_name"@,
{
    reveal_strlit("schema_version");
    reveal_strlit("created_at");
    reveal_strlit("session_count");
    reveal_strlit("chunks_indexed");
    reveal_strlit("verified_insights");
    reveal_strlit("golden_ngrams_count");
    reveal_strlit("synapse_count");
    reveal_strlit("last_model_name");
    let f = numbers(s);
    assert(f[0].0 == "schema_version"@ && f[1].0 == "created_at"@ && f[2].0 == "session_count"@
        && f[3].0 == "chunks_indexed"@ && f[4].0 == "verified_insights"@ && f[5].0
        == "golden_ngrams_count"@ && f[6].0 == "synapse_count"@);
    assert("schema_version"@[1] == 'c' && "created_at"@[0] == 'c' && "session_count"@[1] == 'e'
        && "chunks_indexed"@[0] == 'c' && "chunks_indexed"@[1] == 'h' && "created_at"@[1] == 'r'
        && "verified_insights"@[0] == 'v' && "golden_ngrams_count"@[0] == 'g'
        && "synapse_count"@[1] == 'y' && "last_model_name"@[0] == 'l' && "schema_version"@[0] == 's'
        && "session_count"@[0] == 's' && "synapse_count"@[0] == 's');
}

/// A stored snapshot ends with its records as numbers.
proof fn stored_ends_with_state(s: CognitiveSnapshot, rates: RateTexts) -> (front: Seq<char>)
    ensures
        stored(s, rates) == front + state_member(s.state()),
{
    let state = state_member(s.state());
    let records = stored_records(s, rates);
    let summary = records.take(records.len() - state.len());
    assert(records =~= summary + state);
    let head = "{"@ + number_fields(numbers(s), 7) + quoted("last_model_name"@) + "\""@ + unquoted(
        s.last_model_name@,
    ) + "\","@;
    assert(stored(s, rates) == head + records);
    assert(head + (summary + state) =~= (head + summary) + state);
    head + summary
}

proof fn stored_fields_read_back(s: CognitiveSnapshot, rates: RateTexts)
    ensures
        number_of(stored(s, rates), "schema_version"@) == Some(s.schema_version as nat),
        number_of(stored(s, rates), "created_at"@) == Some(s.created_at as nat),
        number_of(stored(s, rates), "session_count"@) == Some(s.session_count as nat),
        number_of(stored(s, rates), "chunks_indexed"@) == Some(s.chunks_indexed as nat),
        number_of(stored(s, rates), "verified_insights"@) == Some(s.verified_insights as nat),
        number_of(stored(s, rates), "golden_ngrams_count"@) == Some(s.golden_ngrams_count as nat),
        number_of(stored(s, rates), "synapse_count"@) == Some(s.synapse_count as nat),
        text_of(stored(s, rates), "last_model_name"@) == Some(unquoted(s.last_model_name@)),
{
    let fields = numbers(s);
    let key = "last_model_name"@;
    let name = unquoted(s.last_model_name@);
    let after = "\","@ + stored_records(s, rates);
    let tail = quoted(key) + "\""@ + name + after;
    let text = stored(s, rates);
    assert(text =~= text_with(fields, 7, tail));
    stored_keys(s);
    number_reads_back(fields, 0, tail);
    number_reads_back(fields, 1, tail);
    number_reads_back(fields, 2, tail);
    number_reads_back(fields, 3, tail);
    number_reads_back(fields, 4, tail);
    number_reads_back(fields, 5, tail);
    number_reads_back(fields, 6, tail);
    name_reads_back(fields, key, name, stored_records(s, rates));
}

/// What is stored is read back: every counter, the name of the model with an
/// apostrophe for each quotation mark, and all records but trails that are not stronger
/// than one tenth.
pub proof fn stored_snapshot_reads_back(s: CognitiveSnapshot, rates: RateTexts)
    requires
        s.wf(),
        s.countable(),
    ensures
        records_in(stored(s, rates)) == s.lasting_records(),
        number_of(stored(s, rates), "schema_version"@) == Some(s.schema_version as nat),
        number_of(stored(s, rates), "created_at"@) == Some(s.created_at as nat),
        number_of(stored(s, rates), "session_count"@) == Some(s.session_count as nat),
        number_of(stored(s, rates), "chunks_indexed"@) == Some(s.chunks_indexed as nat),
        number_of(stored(s, rates), "verified_insights"@) == Some(s.verified_insights as nat),
        number_of(stored(s, rates), "golden_ngrams_count"@) == Some(s.golden_ngrams_count as nat),
        number_of(stored(s, rates), "synapse_count"@) == Some(s.synapse_count as nat),
        text_of(stored(s, rates), "last_model_name"@) == Some(unquoted(s.last_model_name@)),
{
    let front = stored_ends_with_state(s, rates);
    stored_records_read_back(front, s);
    stored_fields_read_back(s, rates);
}

proof fn name_reads_back(
    fields: Seq<(Seq<char>, nat)>,
    key: Seq<char>,
    name: Seq<char>,
    records: Seq<char>,
)
    requires
        keys_differ(fields),
        plain_key(key),
        forall|i: int| 0 <= i < fields.len() ==> (#[trigger] fields[i]).0 != key,
        forall|i: int| 0 <= i < name.len() ==> #[trigger] name[i] != '"',
    ensures
        text_of(
            text_with(
                fields,
                fields.len() as int,
                quoted(key) + "\""@ + name + ("\","@ + records),
            ),
            key,
        ) == Some(name),
{
    let n = fields.len() as int;
    let after = "\","@ + records;
    let tail = quoted(key) + "\""@ + name + after;
    let text = text_with(fields, n, tail);
    let pat = quoted(key) + "\""@;
    let at: int = 1 + number_fields(fields, n).len() as int;
    reveal_strlit("{");
    reveal_strlit("\"");
    reveal_strlit("\",");
    quoted_at(key);
    no_earlier_key(fields, n, tail, key);
    assert(text.subrange(at, at + pat.len()) =~= pat);
    assert forall|j: int| 0 <= j < at implies !occurs_at(text, pat, j) by {
        if occurs_at(text, pat, j) {
            let whole = text.subrange(j, j + pat.len());
            assert(text.subrange(j, j + quoted(key).len()) =~= whole.take(
                quoted(key).len() as int,
            ));
            assert(whole.take(quoted(key).len() as int) =~= quoted(key));
            assert(occurs_at(text, quoted(key), j));
        }
    }
    assert(first_occurrence(text, pat, 0, at));
    let i = choose|i: int| first_occurrence(text, pat, 0, i);
    assert(first_occurrence(text, pat, 0, i));
    assert(i == at);
    let start: int = at + quoted(key).len() + 1;
    let end: int = start + name.len() as int;
    let quote = "\""@;
    assert(text.subrange(end, end + 1) =~= quote);
    assert forall|j: int| start <= j < end implies !occurs_at(text, quote, j) by {
        if occurs_at(text, quote, j) {
            assert(text.subrange(j, j + 1)[0] == text[j]);
            assert(text[j] == name[j - start]);
        }
    }
    assert(first_occurrence(text, quote, start, end));
    let e = choose|e: int| first_occurrence(text, quote, start, e);
    assert(first_occurrence(text, quote, start, e));
    assert(e == end);
    assert(text.subrange(start, end) =~= name);
}

/// A merge loses no open gap: each gap of the old side that is not filled is
/// there afterwards, or the new side knows one like it.
pub proof fn merging_keeps_open_gaps(
    gaps: Seq<KnowledgeGapRecord>,
    similarity: Seq<Vec<u32>>,
    n: int,
    i: int,
)
    requires
        0 <= i < n <= gaps.len(),
        !gaps[i].is_filled,
    ensures
        inherited_gaps(gaps, similarity, n).contains(gaps[i]) || is_known(similarity[i]@),
    decreases n,
{
    let inherited = inherited_gaps(gaps, similarity, n);
    if i < n - 1 {
        merging_keeps_open_gaps(gaps, similarity, n - 1, i);
        let before = inherited_gaps(gaps, similarity, n - 1);
        if before.contains(gaps[i]) {
            let k = choose|k: int| 0 <= k < before.len() && before[k] == gaps[i];
            assert(inherited[k] == gaps[i]);
        }
    } else if !is_known(similarity[i]@) {
        assert(inherited[inherited.len() - 1] == gaps[i]);
    }
}

/// A merge loses no strong trail: each trail of the old side above one fifth is
/// there afterwards, with what is left of its strength.
pub proof fn merging_keeps_strong_trails(
    trails: Seq<PheromoneRecord>,
    decayed: Seq<u32>,
    n: int,
    i: int,
)
    requires
        0 <= i < n <= trails.len(),
        float_lt(ONE_FIFTH, trails[i].strength),
    ensures
        inherited_trails(trails, decayed, n).contains(
            (PheromoneRecord { strength: decayed[i], ..trails[i] }),
        ),
    decreases n,
{
    let inherited = inherited_trails(trails, decayed, n);
    let kept = PheromoneRecord { strength: decayed[i], ..trails[i] };
    if i < n - 1 {
        merging_keeps_strong_trails(trails, decayed, n - 1, i);
        let before = inherited_trails(trails, decayed, n - 1);
        let k = choose|k: int| 0 <= k < before.len() && before[k] == kept;
        assert(inherited[k] == kept);
    } else {
        assert(inherited[inherited.len() - 1] == kept);
    }
}

/// A merge loses no topic: it knows the topics of both sides and no others. Where
/// both know one, the new side's centre counts.
pub proof fn merging_keeps_topics(
    old_map: Map<Seq<char>, Vec<u32>>,
    new_map: Map<Seq<char>, Vec<u32>>,
    topic: Seq<char>,
)
    ensures
        merged_topics(old_map, new_map).contains_key(topic) <==> old_map.contains_key(topic)
            || new_map.contains_key(topic),
        new_map.contains_key(topic) ==> merged_topics(old_map, new_map)[topic] == new_map[topic],
        !new_map.contains_key(topic) && old_map.contains_key(topic) ==> merged_topics(
            old_map,
            new_map,
        )[topic] == old_map[topic],
{
}

/// A merge loses nothing of a topic: a topic that only the old side knows keeps its
/// centre, its coverage and its number of chunks.
pub proof fn merging_keeps_what_is_known_of_topics(
    old_map: TopicMap,
    new_map: TopicMap,
    topic: Seq<char>,
)
    requires
        old_map.topics@.contains_key(topic),
        !new_map.topics@.contains_key(topic),
    ensures
        merged_topics(old_map.topics@, new_map.topics@)[topic] == old_map.topics@[topic],
        old_map.coverage@.contains_key(topic) ==> merged_coverage(old_map, new_map).contains_key(
            topic,
        ) && merged_coverage(old_map, new_map)[topic] == old_map.coverage@[topic],
        old_map.chunk_count@.contains_key(topic) ==> merged_counts(old_map, new_map).contains_key(
            topic,
        ) && merged_counts(old_map, new_map)[topic] == old_map.chunk_count@[topic],
{
}

/// A merge loses no preset: it has one of every name that either side has.
pub proof fn merging_keeps_presets(
    old_presets: Seq<SteeringPreset>,
    new_presets: Seq<SteeringPreset>,
    name: Seq<char>,
    n: int,
)
    requires
        0 <= n <= old_presets.len(),
        has_preset(old_presets.take(n), name) || has_preset(new_presets, name),
    ensures
        has_preset(new_presets + inherited_presets(old_presets, new_presets, n), name),
    decreases n,
{
    let inherited = inherited_presets(old_presets, new_presets, n);
    let all = new_presets + inherited;
    if has_preset(new_presets, name) {
        let k = choose|k: int|
            0 <= k < new_presets.len() && (#[trigger] new_presets[k]).name@ == name;
        assert(all[k].name@ == name);
    } else {
        let k = choose|k: int|
            0 <= k < old_presets.take(n).len() && (#[trigger] old_presets.take(n)[k]).name@ == name;
        if k < n - 1 {
            assert(old_presets.take(n - 1)[k].name@ == name);
            merging_keeps_presets(old_presets, new_presets, name, n - 1);
            let before = inherited_presets(old_presets, new_presets, n - 1);
            let m = choose|m: int|
                0 <= m < (new_presets + before).len() && (#[trigger] (new_presets
                    + before)[m]).name@ == name;
            assert(all[m].name@ == name);
        } else {
            assert(inherited.last() == old_presets[k]);
            assert(all[all.len() - 1].name@ == name);
        }
    }
}

fn merge_gaps(
    old_gaps: Vec<KnowledgeGapRecord>,
    new_gaps: Vec<KnowledgeGapRecord>,
    similarity: &Vec<Vec<u32>>,
) -> (r: Vec<KnowledgeGapRecord>)
    requires
        similarity@.len() == old_gaps@.len(),
    ensures
        r@ == new_gaps@ + inherited_gaps(old_gaps@, similarity@, old_gaps@.len() as int),
{
    let ghost all = old_gaps@;
    let ghost first = new_gaps@;
    let mut r = new_gaps;
    let mut i: usize = 0;
    assert(r@ =~= first + inherited_gaps(all, similarity@, 0));
    for g in it: old_gaps
        invariant
            it.seq() == all,
            similarity@.len() == all.len(),
            i == it.index(),
            r@ == first + inherited_gaps(all, similarity@, i as int),
    {
        assert(i < similarity.len());
        let keep: bool = !g.is_filled && !check_known(&similarity[i]);
        if keep {
            r.push(g);
            assert(r@ =~= first + inherited_gaps(all, similarity@, i as int).push(g));
        }
        i = i + 1;
    }
    r
}

fn merge_presets(old_presets: Vec<SteeringPreset>, new_presets: Vec<SteeringPreset>) -> (r: Vec<
    SteeringPreset,
>)
    ensures
        r@ == new_presets@ + inherited_presets(
            old_presets@,
            new_presets@,
            old_presets@.len() as int,
        ),
{
    let ghost all = old_presets@;
    let ghost first = new_presets@;
    let n: usize = new_presets.len();
    let mut r = new_presets;
    let ghost mut i: int = 0;
    assert(r@ =~= first + inherited_presets(all, first, 0));
    for p in it: old_presets
        invariant
            it.seq() == all,
            n == first.len(),
            i == it.index(),
            r@.len() >= n,
            r@ == first + inherited_presets(all, first, i),
    {
        assert(r@.take(n as int) =~= first);
        let known: bool = check_preset(&r, n, p.name.as_str());
        if !known {
            r.push(p);
            assert(r@ =~= first + inherited_presets(all, first, i).push(p));
        }
        proof {
            i = i + 1;
        }
    }
    r
}

fn merge_trails(
    old_trails: Vec<PheromoneRecord>,
    new_trails: Vec<PheromoneRecord>,
    decayed: &Vec<u32>,
) -> (r: Vec<PheromoneRecord>)
    requires
        decayed@.len() == old_trails@.len(),
    ensures
        r@ == new_trails@ + inherited_trails(old_trails@, decayed@, old_trails@.len() as int),
{
    let ghost all = old_trails@;
    let ghost first = new_trails@;
    let mut r = new_trails;
    let mut i: usize = 0;
    assert(r@ =~= first + inherited_trails(all, decayed@, 0));
    for t in it: old_trails
        invariant
            it.seq() == all,
            decayed@.len() == all.len(),
            i == it.index(),
            r@ == first + inherited_trails(all, decayed@, i as int),
    {
        assert(i < decayed.len());
        if check_lt(ONE_FIFTH, t.strength) {
            let mut kept = t;
            kept.strength = decayed[i];
            r.push(kept);
            assert(r@ =~= first + inherited_trails(all, decayed@, i as int).push(kept));
        }
        i = i + 1;
    }
    r
}

/// What is carried over with the first `n` of `entries`, as far as they are new: what
/// `old_values` holds of them replaces what `new_values` holds.
pub open spec fn carried<V>(
    entries: Seq<(String, Vec<u32>)>,
    new_topics: Map<Seq<char>, Vec<u32>>,
    old_values: Map<Seq<char>, V>,
    new_values: Map<Seq<char>, V>,
    n: int,
) -> Map<Seq<char>, V>
    decreases n,
{
    if n <= 0 {
        new_values
    } else {
        let c = carried(entries, new_topics, old_values, new_values, n - 1);
        let name = entries[n - 1].0@;
        if !new_topics.contains_key(name) && old_values.contains_key(name) {
            c.insert(name, old_values[name])
        } else {
            c
        }
    }
}

/// What is carried over under one name.
proof fn carried_at<V>(
    entries: Seq<(String, Vec<u32>)>,
    new_topics: Map<Seq<char>, Vec<u32>>,
    old_values: Map<Seq<char>, V>,
    new_values: Map<Seq<char>, V>,
    n: int,
    k: Seq<char>,
)
    requires
        0 <= n <= entries.len(),
    ensures
        ({
            let c = carried(entries, new_topics, old_values, new_values, n);
            if old_values.contains_key(k) && !new_topics.contains_key(k) && named_before(
                entries,
                k,
                n,
            ) {
                c.contains_key(k) && c[k] == old_values[k]
            } else {
                c.contains_key(k) == new_values.contains_key(k) && (c.contains_key(k) ==> c[k]
                    == new_values[k])
            }
        }),
    decreases n,
{
    if n > 0 {
        carried_at(entries, new_topics, old_values, new_values, n - 1, k);
        named_before_step(entries, k, n);
    } else {
        assert(!named_before(entries, k, n));
    }
}

proof fn carried_all<V>(
    old_topics: NamedMap<Vec<u32>>,
    new_topics: Map<Seq<char>, Vec<u32>>,
    old_values: Map<Seq<char>, V>,
    new_values: Map<Seq<char>, V>,
)
    requires
        old_topics.wf(),
    ensures
        carried(
            old_topics.entries@,
            new_topics,
            old_values,
            new_values,
            old_topics.entries@.len() as int,
        ) == new_values.union_prefer_right(
            old_values.restrict(old_topics@.dom().difference(new_topics.dom())),
        ),
{
    let entries = old_topics.entries@;
    let n = entries.len() as int;
    let c = carried(entries, new_topics, old_values, new_values, n);
    let fresh = old_topics@.dom().difference(new_topics.dom());
    let part = old_values.restrict(fresh);
    let all = new_values.union_prefer_right(part);
    assert forall|k: Seq<char>| #[trigger] c.contains_key(k) == all.contains_key(k) && (
    c.contains_key(k) ==> c[k] == all[k]) by {
        carried_at(entries, new_topics, old_values, new_values, n, k);
        if named_before(entries, k, n) {
            let i = choose|i: int| i < n && #[trigger] named_at(entries, k, i);
            assert(named_at(old_topics.entries@, k, i));
            assert(old_topics@.contains_key(k));
        }
        if old_topics@.contains_key(k) {
            let i = choose|i: int| named_at(old_topics.entries@, k, i);
            assert(i < n && named_at(entries, k, i));
        }
        assert(part.contains_key(k) == (old_values.contains_key(k) && fresh.contains(k)));
    }
    assert(c =~= all);
}

/// One of the first `n` entries has this name.
pub open spec fn named_before<T>(entries: Seq<(String, T)>, name: Seq<char>, n: int) -> bool {
    exists|i: int| i < n && #[trigger] named_at(entries, name, i)
}

proof fn named_before_step<T>(entries: Seq<(String, T)>, name: Seq<char>, n: int)
    requires
        0 < n <= entries.len(),
    ensures
        named_before(entries, name, n) == (named_before(entries, name, n - 1) || name
            == entries[n - 1].0@),
{
    if named_before(entries, name, n) {
        let i = choose|i: int| i < n && #[trigger] named_at(entries, name, i);
        if i < n - 1 {
            assert(named_before(entries, name, n - 1));
        }
    }
    if named_before(entries, name, n - 1) {
        let i = choose|i: int| i < n - 1 && #[trigger] named_at(entries, name, i);
        assert(i < n && named_at(entries, name, i));
    }
    if name == entries[n - 1].0@ {
        assert(named_at(entries, name, n - 1));
    }
}

fn merge_topics(old_map: TopicMap, new_map: TopicMap) -> (r: TopicMap)
    requires
        old_map.wf(),
        new_map.wf(),
    ensures
        r.wf(),
        r.topics@ == merged_topics(old_map.topics@, new_map.topics@),
        r.coverage@ == merged_coverage(old_map, new_map),
        r.chunk_count@ == merged_counts(old_map, new_map),
{
    let ghost entries = old_map.topics.entries@;
    let ghost start = new_map;
    let ghost topics = old_map.topics;
    let TopicMap { topics: old_topics, coverage: old_coverage, chunk_count: old_counts } = old_map;
    let mut r = new_map;
    let n: usize = old_topics.entries.len();
    let mut i: usize = 0;
    for e in it: old_topics.entries
        invariant
            n == entries.len(),
            it.seq() == entries,
            i == it.index(),
            topics.wf(),
            topics.entries@ == entries,
            old_coverage.wf(),
            old_coverage == old_map.coverage,
            old_counts.wf(),
            old_counts == old_map.chunk_count,
            r.wf(),
            r.topics@ == carried(entries, start.topics@, topics@, start.topics@, i as int),
            r.coverage@ == carried(
                entries,
                start.topics@,
                old_map.coverage@,
                start.coverage@,
                i as int,
            ),
            r.chunk_count@ == carried(
                entries,
                start.topics@,
                old_map.chunk_count@,
                start.chunk_count@,
                i as int,
            ),
    {
        let (name, centroid) = e;
        proof {
            topics.entry_in_view(i as int);
            carried_at(entries, start.topics@, topics@, start.topics@, i as int, name@);
            if named_before(entries, name@, i as int) {
                let j = choose|j: int| j < i && #[trigger] named_at(entries, name@, j);
                assert(entries[j].0@ != entries[i as int].0@);
            }
        }
        if !r.topics.contains_key(name.as_str()) {
            match old_coverage.get(name.as_str()) {
                Some(c) => {
                    r.coverage.insert(name.clone(), *c);
                },
                None => {},
            }
            match old_counts.get(name.as_str()) {
                Some(c) => {
                    r.chunk_count.insert(name.clone(), *c);
                },
                None => {},
            }
            r.topics.insert(name, centroid);
        }
        i = i + 1;
    }
    proof {
        carried_all(topics, start.topics@, topics@, start.topics@);
        carried_all(topics, start.topics@, old_map.coverage@, start.coverage@);
        carried_all(topics, start.topics@, old_map.chunk_count@, start.chunk_count@);
        assert(r.topics@ =~= merged_topics(topics@, start.topics@));
    }
    r
}

fn count_covered(entries: &Vec<(String, u32)>) -> (n: usize)
    ensures
        n == covered_count(entries@, entries@.len() as int),
{
    let mut n: usize = 0;
    let mut i: usize = 0;
    while i < entries.len()
        invariant
            i <= entries@.len(),
            n <= i,
            n == covered_count(entries@, i as int),
        decreases entries@.len() - i,
    {
        if check_ge(entries[i].1, ONE_HALF) {
            n = n + 1;
        }
        i = i + 1;
    }
    n
}

fn count_open(gaps: &Vec<KnowledgeGapRecord>) -> (n: usize)
    ensures
        n == open_count(gaps@, gaps@.len() as int),
{
    let mut n: usize = 0;
    let mut i: usize = 0;
    while i < gaps.len()
        invariant
            i <= gaps@.len(),
            n <= i,
            n == open_count(gaps@, i as int),
        decreases gaps@.len() - i,
    {
        if !gaps[i].is_filled {
            n = n + 1;
        }
        i = i + 1;
    }
    n
}

fn count_strong(trails: &Vec<PheromoneRecord>) -> (n: usize)
    ensures
        n == strong_count(trails@, trails@.len() as int),
{
    let mut n: usize = 0;
    let mut i: usize = 0;
    while i < trails.len()
        invariant
            i <= trails@.len(),
            n <= i,
            n == strong_count(trails@, i as int),
        decreases trails@.len() - i,
    {
        if check_lt(ONE_FIFTH, trails[i].strength) {
            n = n + 1;
        }
        i = i + 1;
    }
    n
}

fn show_presets(presets: &Vec<SteeringPreset>, percents: &Vec<String>) -> (s: String)
    requires
        percents@.len() >= at_most_three(presets@.len() as int),
    ensures
        s@ == shown_presets(presets@, percents@),
{
    let n: usize = if presets.len() < 3 {
        presets.len()
    } else {
        3
    };
    let mut parts: Vec<String> = Vec::new();
    let mut i: usize = 0;
    assert(views(parts@) =~= top_presets(presets@, percents@, 0));
    while i < n
        invariant
            i <= n <= presets@.len(),
            n <= percents@.len(),
            views(parts@) == top_presets(presets@, percents@, i as int),
        decreases n - i,
    {
        let ghost before = parts@;
        let mut t = "'".to_string();
        t.append(presets[i].name.as_str());
        t.append("'(");
        t.append(percents[i].as_str());
        t.append("%)");
        parts.push(t);
        assert(views(parts@) =~= views(before).push(t@));
        i = i + 1;
    }
    let shown = join_strings(&parts, ", ");
    if shown.as_str().unicode_len() == 0 {
        "(nenhum ainda)".to_string()
    } else {
        shown
    }
}

fn write_records(s: &CognitiveSnapshot, rates: &RateTexts) -> (r: String)
    requires
        rates.gaps@.len() == s.knowledge_gaps@.len(),
        rates.presets@.len() == s.steering_presets@.len(),
        rates.trails@.len() == s.pheromone_trails@.len(),
    ensures
        r@ == stored_records(*s, *rates),
        s.countable(),
{
    let state = encode_records(s);
    let mut gaps: Vec<String> = Vec::new();
    let mut i: usize = 0;
    assert(views(gaps@) =~= gap_texts(s.knowledge_gaps@, rates.gaps@, 0));
    while i < s.knowledge_gaps.len()
        invariant
            i <= s.knowledge_gaps@.len(),
            rates.gaps@.len() == s.knowledge_gaps@.len(),
            views(gaps@) == gap_texts(s.knowledge_gaps@, rates.gaps@, i as int),
        decreases s.knowledge_gaps@.len() - i,
    {
        let ghost before = gaps@;
        let t = write_gap(&s.knowledge_gaps[i], rates.gaps[i].as_str());
        gaps.push(t);
        assert(views(gaps@) =~= views(before).push(t@));
        i = i + 1;
    }
    let mut presets: Vec<String> = Vec::new();
    let mut j: usize = 0;
    assert(views(presets@) =~= preset_texts(s.steering_presets@, rates.presets@, 0));
    while j < s.steering_presets.len()
        invariant
            j <= s.steering_presets@.len(),
            rates.presets@.len() == s.steering_presets@.len(),
            views(presets@) == preset_texts(s.steering_presets@, rates.presets@, j as int),
        decreases s.steering_presets@.len() - j,
    {
        let ghost before = presets@;
        let t = write_preset(&s.steering_presets[j], rates.presets[j].as_str());
        presets.push(t);
        assert(views(presets@) =~= views(before).push(t@));
        j = j + 1;
    }
    let mut trails: Vec<String> = Vec::new();
    let mut k: usize = 0;
    assert(views(trails@) =~= trail_texts(s.pheromone_trails@, rates.trails@, 0));
    while k < s.pheromone_trails.len()
        invariant
            k <= s.pheromone_trails@.len(),
            rates.trails@.len() == s.pheromone_trails@.len(),
            views(trails@) == trail_texts(s.pheromone_trails@, rates.trails@, k as int),
        decreases s.pheromone_trails@.len() - k,
    {
        let ghost before = trails@;
        if check_lt(ONE_TENTH, s.pheromone_trails[k].strength) {
            let t = write_trail(&s.pheromone_trails[k], rates.trails[k].as_str());
            trails.push(t);
            assert(views(trails@) =~= views(before).push(t@));
        }
        k = k + 1;
    }
    let gap_list = join_strings(&gaps, ",");
    let preset_list = join_strings(&presets, ",");
    let trail_list = join_strings(&trails, ",");
    let ghost counts = seq![
        ("knowledge_gaps_count"@, s.knowledge_gaps@.len()),
        ("steering_presets_count"@, s.steering_presets@.len()),
        ("pheromone_trails_count"@, s.pheromone_trails@.len()),
    ];
    let ghost none = Seq::<char>::empty();
    let mut r = String::new();
    assert(none + number_fields(counts, 0) =~= none);
    push_number(&mut r, "knowledge_gaps_count", s.knowledge_gaps.len() as u64);
    proof {
        next_field(none, counts, 0);
    }
    push_number(&mut r, "steering_presets_count", s.steering_presets.len() as u64);
    proof {
        next_field(none, counts, 1);
    }
    push_number(&mut r, "pheromone_trails_count", s.pheromone_trails.len() as u64);
    proof {
        next_field(none, counts, 2);
    }
    assert(r@ =~= number_fields(counts, 3));
    r.append("\"knowledge_gaps\":[");
    r.append(gap_list.as_str());
    r.append("],\"steering_presets\":[");
    r.append(preset_list.as_str());
    r.append("],\"pheromone_trails\":[");
    r.append(trail_list.as_str());
    r.append("],");
    let ghost before = r@;
    r.append("\"state\":[1");
    push_items(&mut r, &state);
    r.append("]}");
    assert(r@ =~= before + state_member(s.state()));
    r
}

// ─── What is kept and what is counted ────────────────────────────────────────

/// The weak topics are those whose coverage is below one half, all of them.
pub proof fn weak_topics_are_below_half(entries: Seq<(String, u32)>, n: int)
    requires
        0 <= n <= entries.len(),
    ensures
        weak_entries(entries, n) == entries.take(n).filter(
            |e: (String, u32)| float_lt(e.1, 0x3f00_0000u32),
        ).map_values(|e: (String, u32)| (e.0@, e.1)),
    decreases n,
{
    reveal(Seq::filter);
    let weak = |e: (String, u32)| float_lt(e.1, 0x3f00_0000u32);
    let shown = |e: (String, u32)| (e.0@, e.1);
    if n > 0 {
        weak_topics_are_below_half(entries, n - 1);
        assert(entries.take(n).drop_last() =~= entries.take(n - 1));
    }
    assert(weak_entries(entries, n) =~= entries.take(n).filter(weak).map_values(shown));
}

/// A gap that is inherited is one of the old gaps, is open and is not known yet. The result
/// is where it stood.
pub proof fn inherited_gaps_are_open(
    gaps: Seq<KnowledgeGapRecord>,
    similarity: Seq<Vec<u32>>,
    n: int,
    k: int,
) -> (i: int)
    requires
        0 <= n <= gaps.len(),
        0 <= k < inherited_gaps(gaps, similarity, n).len(),
    ensures
        0 <= i < n,
        inherited_gaps(gaps, similarity, n)[k] == gaps[i],
        !gaps[i].is_filled,
        !is_known(similarity[i]@),
    decreases n,
{
    if k < inherited_gaps(gaps, similarity, n - 1).len() {
        inherited_gaps_are_open(gaps, similarity, n - 1, k)
    } else {
        n - 1
    }
}

/// The presets that are inherited are those whose name is not in use, all of them, in their
/// order.
pub proof fn unused_presets_are_inherited(
    presets: Seq<SteeringPreset>,
    known: Seq<SteeringPreset>,
    n: int,
)
    requires
        0 <= n <= presets.len(),
    ensures
        inherited_presets(presets, known, n) == presets.take(n).filter(
            |p: SteeringPreset| !has_preset(known, p.name@),
        ),
    decreases n,
{
    reveal(Seq::filter);
    if n > 0 {
        unused_presets_are_inherited(presets, known, n - 1);
        assert(presets.take(n).drop_last() =~= presets.take(n - 1));
    }
}

/// A trail that is inherited is one of the old trails that was strong, with its strength
/// decayed. The result is where it stood.
pub proof fn inherited_trails_were_strong(
    trails: Seq<PheromoneRecord>,
    decayed: Seq<u32>,
    n: int,
    k: int,
) -> (i: int)
    requires
        0 <= n <= trails.len(),
        0 <= k < inherited_trails(trails, decayed, n).len(),
    ensures
        0 <= i < n,
        inherited_trails(trails, decayed, n)[k] == (PheromoneRecord {
            strength: decayed[i],
            ..trails[i]
        }),
        float_lt(ONE_FIFTH, trails[i].strength),
    decreases n,
{
    if k < inherited_trails(trails, decayed, n - 1).len() {
        inherited_trails_were_strong(trails, decayed, n - 1, k)
    } else {
        n - 1
    }
}

/// The report counts the topics that are covered by one half or more, the gaps that are
/// open and the trails that are strong, each once.
pub proof fn reports_count_each_once(
    entries: Seq<(String, u32)>,
    gaps: Seq<KnowledgeGapRecord>,
    trails: Seq<PheromoneRecord>,
)
    ensures
        covered_count(entries, entries.len() as int) == entries.filter(
            |e: (String, u32)| float_ge(e.1, 0x3f00_0000u32),
        ).len(),
        open_count(gaps, gaps.len() as int) == gaps.filter(
            |g: KnowledgeGapRecord| !g.is_filled,
        ).len(),
        strong_count(trails, trails.len() as int) == trails.filter(
            |p: PheromoneRecord| float_lt(ONE_FIFTH, p.strength),
        ).len(),
{
    covered_up_to(entries, entries.len() as int);
    open_up_to(gaps, gaps.len() as int);
    strong_up_to(trails, trails.len() as int);
    assert(entries.take(entries.len() as int) =~= entries);
    assert(gaps.take(gaps.len() as int) =~= gaps);
    assert(trails.take(trails.len() as int) =~= trails);
}

proof fn covered_up_to(entries: Seq<(String, u32)>, n: int)
    requires
        0 <= n <= entries.len(),
    ensures
        covered_count(entries, n) == entries.take(n).filter(
            |e: (String, u32)| float_ge(e.1, 0x3f00_0000u32),
        ).len(),
    decreases n,
{
    reveal(Seq::filter);
    if n > 0 {
        covered_up_to(entries, n - 1);
        assert(entries.take(n).drop_last() =~= entries.take(n - 1));
    }
}

proof fn open_up_to(gaps: Seq<KnowledgeGapRecord>, n: int)
    requires
        0 <= n <= gaps.len(),
    ensures
        open_count(gaps, n) == gaps.take(n).filter(|g: KnowledgeGapRecord| !g.is_filled).len(),
    decreases n,
{
    reveal(Seq::filter);
    if n > 0 {
        open_up_to(gaps, n - 1);
        assert(gaps.take(n).drop_last() =~= gaps.take(n - 1));
    }
}

proof fn strong_up_to(trails: Seq<PheromoneRecord>, n: int)
    requires
        0 <= n <= trails.len(),
    ensures
        strong_count(trails, n) == trails.take(n).filter(
            |p: PheromoneRecord| float_lt(ONE_FIFTH, p.strength),
        ).len(),
    decreases n,
{
    reveal(Seq::filter);
    if n > 0 {
        strong_up_to(trails, n - 1);
        assert(trails.take(n).drop_last() =~= trails.take(n - 1));
    }
}

/// Every gap and every preset is written down, and stands in its place.
pub proof fn every_record_is_written(
    gaps: Seq<KnowledgeGapRecord>,
    presets: Seq<SteeringPreset>,
    rates: Seq<String>,
    n: int,
    m: int,
)
    requires
        0 <= n <= gaps.len(),
        0 <= m <= presets.len(),
    ensures
        gap_texts(gaps, rates, n) == Seq::new(
            n as nat,
            |i: int| gap_text(gaps[i], rates[i]@),
        ),
        preset_texts(presets, rates, m) == Seq::new(
            m as nat,
            |i: int| preset_text(presets[i], rates[i]@),
        ),
    decreases n + m,
{
    if n > 0 {
        every_record_is_written(gaps, presets, rates, n - 1, m);
    }
    if m > 0 {
        every_record_is_written(gaps, presets, rates, n, m - 1);
    }
    assert(gap_texts(gaps, rates, n) =~= Seq::new(
        n as nat,
        |i: int| gap_text(gaps[i], rates[i]@),
    ));
    assert(preset_texts(presets, rates, m) =~= Seq::new(
        m as nat,
        |i: int| preset_text(presets[i], rates[i]@),
    ));
}

/// A trail that is written down is one that is strong enough to last, and every such trail
/// is written down. The result is where the text of trail `i` stands.
pub proof fn lasting_trails_are_written(
    trails: Seq<PheromoneRecord>,
    strengths: Seq<String>,
    n: int,
    i: int,
) -> (k: int)
    requires
        0 <= i < n <= trails.len(),
    ensures
        float_lt(ONE_TENTH, trails[i].strength) ==> 0 <= k < trail_texts(
            trails,
            strengths,
            n,
        ).len() && trail_texts(trails, strengths, n)[k] == trail_text(trails[i], strengths[i]@),
        trail_texts(trails, strengths, n).len() == trails.take(n).filter(
            |t: PheromoneRecord| float_lt(ONE_TENTH, t.strength),
        ).len(),
    decreases n,
{
    lasting_up_to(trails, strengths, n);
    if i < n - 1 {
        lasting_trails_are_written(trails, strengths, n - 1, i)
    } else {
        trail_texts(trails, strengths, n).len() - 1
    }
}

proof fn lasting_up_to(trails: Seq<PheromoneRecord>, strengths: Seq<String>, n: int)
    requires
        0 <= n <= trails.len(),
    ensures
        trail_texts(trails, strengths, n).len() == trails.take(n).filter(
            |t: PheromoneRecord| float_lt(ONE_TENTH, t.strength),
        ).len(),
    decreases n,
{
    reveal(Seq::filter);
    if n > 0 {
        lasting_up_to(trails, strengths, n - 1);
        assert(trails.take(n).drop_last() =~= trails.take(n - 1));
    }
}

/// The presets are shown from the first on, each with its name and its percentage.
pub proof fn presets_are_shown_in_order(
    presets: Seq<SteeringPreset>,
    percents: Seq<String>,
    n: int,
)
    requires
        0 <= n <= presets.len(),
    ensures
        top_presets(presets, percents, n) == Seq::new(
            n as nat,
            |i: int| "'"@ + presets[i].name@ + "'("@ + percents[i]@ + "%)"@,
        ),
    decreases n,
{
    if n > 0 {
        presets_are_shown_in_order(presets, percents, n - 1);
    }
    assert(top_presets(presets, percents, n) =~= Seq::new(
        n as nat,
        |i: int| "'"@ + presets[i].name@ + "'("@ + percents[i]@ + "%)"@,
    ));
}

} // verus!
