//! The records of a snapshot as numbers, in full: what is stored of them, and what is
//! read back.

use vstd::prelude::*;

use crate::float_bits::{check_lt, float_lt};
use crate::named_map::NamedMap;
use crate::number_code::{
    check_names_differ, codes, list_code, list_reads_back, models_of, names_differ, read_state,
    state_in, state_member, state_reads_back, Coded,
};
use crate::persistent_memory::{
    CognitiveSnapshot, KnowledgeGapRecord, PheromoneRecord, SteeringPreset, TopicMap, ONE_TENTH,
};

verus! {

// ─── Records ─────────────────────────────────────────────────────────────────

/// The fields of a preset, in groups.
pub type PresetParts = ((String, Vec<u32>, Vec<(usize, u32, String)>), (u64, u32, String));

/// The fields of a trail, in groups.
pub type TrailParts = ((u64, Vec<u32>, u32), (u64, String));

/// The fields of a gap, in groups.
pub type GapParts = ((Vec<u32>, u32, Vec<String>), (u64, bool, u64));

impl SteeringPreset {
    pub open spec fn parts(&self) -> PresetParts {
        (
            (self.name, self.task_signature, self.vectors),
            (self.hit_count, self.success_rate, self.origin_model),
        )
    }
}

impl PheromoneRecord {
    pub open spec fn parts(&self) -> TrailParts {
        ((self.path_id, self.embedding, self.strength), (self.created_at, self.description))
    }
}

impl KnowledgeGapRecord {
    pub open spec fn parts(&self) -> GapParts {
        (
            (self.centroid, self.rejection_rate, self.domain_tags),
            (self.access_count, self.is_filled, self.last_attempt),
        )
    }
}

impl Coded for SteeringPreset {
    type Model = <PresetParts as Coded>::Model;

    open spec fn model(&self) -> <PresetParts as Coded>::Model {
        self.parts().model()
    }

    open spec fn code(&self) -> Seq<u64> {
        self.parts().code()
    }

    open spec fn countable(&self) -> bool {
        self.parts().countable()
    }

    open spec fn decoded(ns: Seq<u64>, at: int) -> Option<(<PresetParts as Coded>::Model, int)> {
        PresetParts::decoded(ns, at)
    }

    fn write_code(&self, out: &mut Vec<u64>) {
        let ghost before = out@;
        self.name.write_code(out);
        self.task_signature.write_code(out);
        self.vectors.write_code(out);
        self.hit_count.write_code(out);
        self.success_rate.write_code(out);
        self.origin_model.write_code(out);
        assert(out@ =~= before + self.code());
    }

    fn read_code(ns: &Vec<u64>, at: usize) -> (r: Option<(SteeringPreset, usize)>) {
        match PresetParts::read_code(ns, at) {
            Some((parts, next)) => {
                let ((name, task_signature, vectors), (hit_count, success_rate, origin_model)) =
                    parts;
                Some(
                    (
                        SteeringPreset {
                            name,
                            task_signature,
                            vectors,
                            hit_count,
                            success_rate,
                            origin_model,
                        },
                        next,
                    ),
                )
            },
            None => None,
        }
    }

    proof fn reads_back(&self, ns: Seq<u64>, at: int) {
        self.parts().reads_back(ns, at);
    }
}

impl Coded for PheromoneRecord {
    type Model = <TrailParts as Coded>::Model;

    open spec fn model(&self) -> <TrailParts as Coded>::Model {
        self.parts().model()
    }

    open spec fn code(&self) -> Seq<u64> {
        self.parts().code()
    }

    open spec fn countable(&self) -> bool {
        self.parts().countable()
    }

    open spec fn decoded(ns: Seq<u64>, at: int) -> Option<(<TrailParts as Coded>::Model, int)> {
        TrailParts::decoded(ns, at)
    }

    fn write_code(&self, out: &mut Vec<u64>) {
        let ghost before = out@;
        self.path_id.write_code(out);
        self.embedding.write_code(out);
        self.strength.write_code(out);
        self.created_at.write_code(out);
        self.description.write_code(out);
        assert(out@ =~= before + self.code());
    }

    fn read_code(ns: &Vec<u64>, at: usize) -> (r: Option<(PheromoneRecord, usize)>) {
        match TrailParts::read_code(ns, at) {
            Some((parts, next)) => {
                let ((path_id, embedding, strength), (created_at, description)) = parts;
                Some(
                    (
                        PheromoneRecord { path_id, embedding, strength, created_at, description },
                        next,
                    ),
                )
            },
            None => None,
        }
    }

    proof fn reads_back(&self, ns: Seq<u64>, at: int) {
        self.parts().reads_back(ns, at);
    }
}

impl Coded for KnowledgeGapRecord {
    type Model = <GapParts as Coded>::Model;

    open spec fn model(&self) -> <GapParts as Coded>::Model {
        self.parts().model()
    }

    open spec fn code(&self) -> Seq<u64> {
        self.parts().code()
    }

    open spec fn countable(&self) -> bool {
        self.parts().countable()
    }

    open spec fn decoded(ns: Seq<u64>, at: int) -> Option<(<GapParts as Coded>::Model, int)> {
        GapParts::decoded(ns, at)
    }

    fn write_code(&self, out: &mut Vec<u64>) {
        let ghost before = out@;
        self.centroid.write_code(out);
        self.rejection_rate.write_code(out);
        self.domain_tags.write_code(out);
        self.access_count.write_code(out);
        self.is_filled.write_code(out);
        self.last_attempt.write_code(out);
        assert(out@ =~= before + self.code());
    }

    fn read_code(ns: &Vec<u64>, at: usize) -> (r: Option<(KnowledgeGapRecord, usize)>) {
        match GapParts::read_code(ns, at) {
            Some((parts, next)) => {
                let ((centroid, rejection_rate, domain_tags), (access_count, is_filled, last_attempt)) =
                    parts;
                Some(
                    (
                        KnowledgeGapRecord {
                            centroid,
                            rejection_rate,
                            domain_tags,
                            access_count,
                            is_filled,
                            last_attempt,
                        },
                        next,
                    ),
                )
            },
            None => None,
        }
    }

    proof fn reads_back(&self, ns: Seq<u64>, at: int) {
        self.parts().reads_back(ns, at);
    }
}

// ─── The records of a snapshot ───────────────────────────────────────────────

/// The maps of a topic map.
pub type TopicParts = (NamedMap<Vec<u32>>, NamedMap<u32>, NamedMap<u64>);

/// The lists of a snapshot.
pub type ListParts = (Vec<KnowledgeGapRecord>, Vec<SteeringPreset>, Vec<PheromoneRecord>);

/// What the records of a snapshot hold.
pub type Records = (<TopicParts as Coded>::Model, <ListParts as Coded>::Model);

/// No record.
pub open spec fn no_records() -> Records {
    ((Seq::empty(), Seq::empty(), Seq::empty()), (Seq::empty(), Seq::empty(), Seq::empty()))
}

/// The trails that are stored: those stronger than one tenth.
pub open spec fn lasting_trails(trails: Seq<PheromoneRecord>) -> Seq<PheromoneRecord> {
    trails.filter(|t: PheromoneRecord| float_lt(ONE_TENTH, t.strength))
}

impl CognitiveSnapshot {
    /// What the records hold.
    pub open spec fn records(&self) -> Records {
        (
            (
                self.topic_map.topics.model(),
                self.topic_map.coverage.model(),
                self.topic_map.chunk_count.model(),
            ),
            (
                self.knowledge_gaps.model(),
                self.steering_presets.model(),
                self.pheromone_trails.model(),
            ),
        )
    }

    /// What the records hold that are stored: all but faint trails.
    pub open spec fn lasting_records(&self) -> Records {
        (
            self.records().0,
            (
                self.knowledge_gaps.model(),
                self.steering_presets.model(),
                models_of(lasting_trails(self.pheromone_trails@)),
            ),
        )
    }

    /// Every length in the records can be written as a number.
    pub open spec fn countable(&self) -> bool {
        &&& self.topic_map.topics.countable()
        &&& self.topic_map.coverage.countable()
        &&& self.topic_map.chunk_count.countable()
        &&& self.knowledge_gaps.countable()
        &&& self.steering_presets.countable()
        &&& lasting_trails(self.pheromone_trails@).len() <= u64::MAX
        &&& crate::number_code::all_countable(lasting_trails(self.pheromone_trails@))
    }

    /// The numbers that the records are stored as.
    pub open spec fn state(&self) -> Seq<u64> {
        self.topic_map.topics.code() + self.topic_map.coverage.code()
            + self.topic_map.chunk_count.code() + self.knowledge_gaps.code()
            + self.steering_presets.code() + list_code(lasting_trails(self.pheromone_trails@))
    }
}

/// The records that numbers hold; none where they are not what is stored.
pub open spec fn records_from(ns: Seq<u64>) -> Records {
    match <(TopicParts, ListParts) as Coded>::decoded(ns, 0) {
        Some((r, end)) => if end == ns.len() && names_differ(r.0.0) && names_differ(r.0.1)
            && names_differ(r.0.2) {
            r
        } else {
            no_records()
        },
        None => no_records(),
    }
}

/// The records that a stored text holds.
pub open spec fn records_in(text: Seq<char>) -> Records {
    match state_in(text) {
        Some(ns) => records_from(ns),
        None => no_records(),
    }
}

proof fn filter_push(trails: Seq<PheromoneRecord>, t: PheromoneRecord)
    ensures
        lasting_trails(trails.push(t)) == if float_lt(ONE_TENTH, t.strength) {
            lasting_trails(trails).push(t)
        } else {
            lasting_trails(trails)
        },
{
    reveal(Seq::filter);
    assert(trails.push(t).drop_last() =~= trails);
}

fn encode_trails(trails: &Vec<PheromoneRecord>, out: &mut Vec<u64>)
    ensures
        final(out)@ == old(out)@ + list_code(lasting_trails(trails@)),
        lasting_trails(trails@).len() <= u64::MAX,
        crate::number_code::all_countable(lasting_trails(trails@)),
{
    let ghost before = out@;
    let mut n: u64 = 0;
    let mut i: usize = 0;
    proof {
        reveal(Seq::filter);
        assert(trails@.take(0) =~= Seq::<PheromoneRecord>::empty());
    }
    while i < trails.len()
        invariant
            i <= trails@.len(),
            n <= i,
            n == lasting_trails(trails@.take(i as int)).len(),
        decreases trails@.len() - i,
    {
        proof {
            assert(trails@.take(i + 1) =~= trails@.take(i as int).push(trails@[i as int]));
            filter_push(trails@.take(i as int), trails@[i as int]);
        }
        if check_lt(ONE_TENTH, trails[i].strength) {
            n = n + 1;
        }
        i = i + 1;
    }
    assert(trails@.take(i as int) =~= trails@);
    out.push(n);
    let ghost head = out@;
    let mut k: usize = 0;
    assert(trails@.take(0) =~= Seq::<PheromoneRecord>::empty());
    assert(head + codes(lasting_trails(trails@.take(0))) =~= head) by {
        reveal(Seq::filter);
        assert(lasting_trails(trails@.take(0)) =~= Seq::<PheromoneRecord>::empty());
    }
    assert(crate::number_code::all_countable(lasting_trails(trails@.take(0)))) by {
        reveal(Seq::filter);
    }
    while k < trails.len()
        invariant
            k <= trails@.len(),
            out@ == head + codes(lasting_trails(trails@.take(k as int))),
            crate::number_code::all_countable(lasting_trails(trails@.take(k as int))),
        decreases trails@.len() - k,
    {
        let ghost kept = lasting_trails(trails@.take(k as int));
        let ghost t = trails@[k as int];
        proof {
            assert(trails@.take(k + 1) =~= trails@.take(k as int).push(t));
            filter_push(trails@.take(k as int), t);
        }
        if check_lt(ONE_TENTH, trails[k].strength) {
            trails[k].write_code(out);
            proof {
                crate::number_code::codes_push(kept, t);
                assert(out@ =~= head + codes(kept.push(t)));
                assert(crate::number_code::all_countable(kept.push(t)));
            }
        }
        k = k + 1;
    }
    assert(trails@.take(k as int) =~= trails@);
    assert(out@ =~= before + list_code(lasting_trails(trails@)));
}

/// The numbers that the records of a snapshot are stored as.
pub fn encode_records(s: &CognitiveSnapshot) -> (ns: Vec<u64>)
    ensures
        ns@ == s.state(),
        s.countable(),
{
    let mut ns: Vec<u64> = Vec::new();
    s.topic_map.topics.write_code(&mut ns);
    s.topic_map.coverage.write_code(&mut ns);
    s.topic_map.chunk_count.write_code(&mut ns);
    s.knowledge_gaps.write_code(&mut ns);
    s.steering_presets.write_code(&mut ns);
    encode_trails(&s.pheromone_trails, &mut ns);
    assert(ns@ =~= s.state());
    ns
}

fn empty_records() -> (r: (TopicMap, ListParts))
    ensures
        r.0.wf(),
        ((r.0.topics.model(), r.0.coverage.model(), r.0.chunk_count.model()), r.1.model())
            == no_records(),
{
    let topics = TopicMap {
        topics: NamedMap::new(),
        coverage: NamedMap::new(),
        chunk_count: NamedMap::new(),
    };
    let gaps: Vec<KnowledgeGapRecord> = Vec::new();
    let presets: Vec<SteeringPreset> = Vec::new();
    let trails: Vec<PheromoneRecord> = Vec::new();
    assert(topics.topics.model() =~= Seq::empty());
    assert(topics.coverage.model() =~= Seq::empty());
    assert(topics.chunk_count.model() =~= Seq::empty());
    assert(gaps.model() =~= Seq::empty());
    assert(presets.model() =~= Seq::empty());
    assert(trails.model() =~= Seq::empty());
    (topics, (gaps, presets, trails))
}

/// The records that a stored text holds.
pub fn decode_records(text: &Vec<char>) -> (r: (TopicMap, ListParts))
    ensures
        r.0.wf(),
        ((r.0.topics.model(), r.0.coverage.model(), r.0.chunk_count.model()), r.1.model())
            == records_in(text@),
{
    let ns = match read_state(text) {
        Some(ns) => ns,
        None => {
            return empty_records();
        },
    };
    match <(TopicParts, ListParts) as Coded>::read_code(&ns, 0) {
        Some((parts, end)) => {
            let ((topics, coverage, chunk_count), lists) = parts;
            if end == ns.len() && check_names_differ(&topics) && check_names_differ(&coverage)
                && check_names_differ(&chunk_count) {
                (TopicMap { topics, coverage, chunk_count }, lists)
            } else {
                empty_records()
            }
        },
        None => empty_records(),
    }
}

/// The names in a map differ.
proof fn names_in_map_differ<T: Coded>(map: NamedMap<T>)
    requires
        map.wf(),
    ensures
        names_differ(map.model()),
{
    let m = map.model();
    assert forall|i: int, j: int| 0 <= i < j < m.len() implies (#[trigger] m[i]).0 != (
    #[trigger] m[j]).0 by {
        assert(map.entries@[i].0@ != map.entries@[j].0@);
    }
}

/// The records of a snapshot, but for faint trails, are read back from the numbers that
/// they are stored as.
pub proof fn records_read_back(s: CognitiveSnapshot)
    requires
        s.wf(),
        s.countable(),
    ensures
        records_from(s.state()) == s.lasting_records(),
{
    let ns = s.state();
    let trails = lasting_trails(s.pheromone_trails@);
    let a = s.topic_map.topics.code().len() as int;
    let b = a + s.topic_map.coverage.code().len();
    let c = b + s.topic_map.chunk_count.code().len();
    let d = c + s.knowledge_gaps.code().len();
    let e = d + s.steering_presets.code().len();
    assert(ns.subrange(0, a) =~= s.topic_map.topics.code());
    assert(ns.subrange(a, b) =~= s.topic_map.coverage.code());
    assert(ns.subrange(b, c) =~= s.topic_map.chunk_count.code());
    assert(ns.subrange(c, d) =~= s.knowledge_gaps.code());
    assert(ns.subrange(d, e) =~= s.steering_presets.code());
    assert(ns.subrange(e, ns.len() as int) =~= list_code(trails));
    s.topic_map.topics.reads_back(ns, 0);
    s.topic_map.coverage.reads_back(ns, a);
    s.topic_map.chunk_count.reads_back(ns, b);
    s.knowledge_gaps.reads_back(ns, c);
    s.steering_presets.reads_back(ns, d);
    assert(ns[e] == list_code(trails)[0]);
    assert(ns.subrange(e + 1, e + 1 + codes(trails).len()) =~= list_code(trails).skip(1));
    assert(list_code(trails).skip(1) =~= codes(trails));
    list_reads_back(trails, ns, e + 1);
    names_in_map_differ(s.topic_map.topics);
    names_in_map_differ(s.topic_map.coverage);
    names_in_map_differ(s.topic_map.chunk_count);
}

/// The records of a snapshot, but for faint trails, are read back from the text that
/// they are stored in, whatever stands before them.
pub proof fn stored_records_read_back(before: Seq<char>, s: CognitiveSnapshot)
    requires
        s.wf(),
        s.countable(),
    ensures
        records_in(before + state_member(s.state())) == s.lasting_records(),
{
    state_reads_back(before, s.state());
    records_read_back(s);
}

} // verus!
