//! Expert weights that do not fit in memory: a cache of three tiers, and the
//! decisions of the stream that reads what the cache lacks.

use std::collections::VecDeque;
use vstd::prelude::*;

use crate::errors::NodeStorError;
use crate::float_bits::{float_lt, is_nan, rank, rank_of};
use crate::keyed_map::{drop_key, without, without_keeps_others, Key, KeyedMap};
use crate::le_bytes::copy_bytes;
use crate::ranking::{is_ranking, rank_desc, ranking_descends, ranking_is_a_permutation};
use crate::text::{dec, push_dec};
use crate::weight_store::{QuantFormat, TensorDtype};

verus! {

// ─── Blocks ──────────────────────────────────────────────────────────────────

/// One expert of one layer.
#[derive(Clone, Copy, Debug, PartialEq, Eq, Hash, Structural)]
pub struct ExpertId {
    pub layer: u32,
    pub expert: u32,
}

impl Key for ExpertId {
    fn same_key(&self, other: &ExpertId) -> (b: bool) {
        *self == *other
    }
}

impl ExpertId {
    /// The identifier as text.
    pub open spec fn text(self) -> Seq<char> {
        "ExpertId { layer: "@ + dec(self.layer as nat) + ", expert: "@ + dec(self.expert as nat)
            + " }"@
    }
}

/// Appends the text of an identifier.
pub fn push_expert(out: &mut String, id: ExpertId)
    ensures
        final(out)@ == old(out)@ + id.text(),
{
    out.append("ExpertId { layer: ");
    push_dec(out, id.layer as u64);
    out.append(", expert: ");
    push_dec(out, id.expert as u64);
    out.append(" }");
    assert(out@ =~= old(out)@ + id.text());
}

#[allow(non_camel_case_types)]
#[derive(Clone, Copy, Debug, PartialEq, Eq, Structural)]
pub enum QuantType {
    Q4_0,
    Q4_K,
    Q5_0,
    Q8_0,
    F16,
    BF16,
}

impl QuantType {
    /// How many bytes eight elements take.
    pub open spec fn eight_elements(self) -> nat {
        match self {
            QuantType::Q4_0 | QuantType::Q4_K => 4,
            QuantType::Q5_0 => 5,
            QuantType::Q8_0 => 8,
            QuantType::F16 | QuantType::BF16 => 16,
        }
    }

    /// How many bytes eight elements take.
    pub fn bytes_per_eight(self) -> (n: u32)
        ensures
            n == self.eight_elements(),
    {
        match self {
            QuantType::Q4_0 => 4,
            QuantType::Q4_K => 4,
            QuantType::Q5_0 => 5,
            QuantType::Q8_0 => 8,
            QuantType::F16 => 16,
            QuantType::BF16 => 16,
        }
    }
}

/// The weights of one expert, as they are stored.
pub struct WeightBlock {
    pub id: ExpertId,
    pub data: Vec<u8>,
    pub quant: QuantType,
    pub rows: u32,
    pub cols: u32,
}

/// A block as a mathematical value.
pub struct BlockModel {
    pub id: ExpertId,
    pub data: Seq<u8>,
    pub quant: QuantType,
    pub rows: u32,
    pub cols: u32,
}

impl View for WeightBlock {
    type V = BlockModel;

    open spec fn view(&self) -> BlockModel {
        BlockModel {
            id: self.id,
            data: self.data@,
            quant: self.quant,
            rows: self.rows,
            cols: self.cols,
        }
    }
}

impl WeightBlock {
    /// A copy of the block.
    pub fn copy(&self) -> (b: WeightBlock)
        ensures
            b@ == self@,
    {
        let data = copy_bytes(self.data.as_slice(), 0, self.data.len());
        assert(data@ =~= self.data@);
        WeightBlock { id: self.id, data, quant: self.quant, rows: self.rows, cols: self.cols }
    }
}

/// Where a block stands on disk.
#[derive(Clone, Copy, Debug)]
pub struct ExpertDiskEntry {
    pub offset: u64,
    pub compressed_bytes: u64,
    pub raw_bytes: u64,
    pub quant: QuantType,
    pub rows: u32,
    pub cols: u32,
    pub is_compressed: bool,
}

// ─── How often experts are used ──────────────────────────────────────────────

/// How often each expert was activated, and in how many steps.
pub struct ExpertFrequency {
    pub counts: KeyedMap<ExpertId, u64>,
    pub total_steps: u64,
}

/// How often `id` occurs in `activated`.
pub open spec fn activations(activated: Seq<ExpertId>, id: ExpertId) -> nat
    decreases activated.len(),
{
    if activated.len() == 0 {
        0
    } else {
        activations(activated.drop_last(), id) + if activated.last() == id {
            1nat
        } else {
            0nat
        }
    }
}

proof fn activations_bounded(activated: Seq<ExpertId>, id: ExpertId)
    ensures
        activations(activated, id) <= activated.len(),
    decreases activated.len(),
{
    if activated.len() > 0 {
        activations_bounded(activated.drop_last(), id);
    }
}

impl ExpertFrequency {
    pub open spec fn wf(&self) -> bool {
        self.counts.wf()
    }

    /// How often `id` was activated.
    pub open spec fn activated(&self, id: ExpertId) -> nat {
        if self.counts@.contains_key(id) {
            self.counts@[id] as nat
        } else {
            0
        }
    }

    /// `n` more activations can be counted.
    pub open spec fn has_room(&self, n: nat) -> bool {
        self.total_steps < u64::MAX && forall|id: ExpertId| #[trigger]
            self.activated(id) + n <= u64::MAX
    }

    /// `r` holds the `k` experts that were activated most often, with how often,
    /// most often first.
    pub open spec fn is_top(&self, r: Seq<(ExpertId, u64)>, k: nat) -> bool {
        &&& r.len() == if k <= self.counts.entries@.len() {
            k
        } else {
            self.counts.entries@.len()
        }
        &&& forall|a: int|
            0 <= a < r.len() ==> self.counts@.contains_key((#[trigger] r[a]).0) && r[a].1
                == self.counts@[r[a].0]
        &&& forall|a: int, b: int|
            0 <= a < b < r.len() ==> (#[trigger] r[a]).1 >= (#[trigger] r[b]).1 && r[a].0 != r[b].0
        &&& forall|a: int, id: ExpertId|
            0 <= a < r.len() && self.counts@.contains_key(id) && (forall|b: int|
                0 <= b < r.len() ==> (#[trigger] r[b]).0 != id) ==> (#[trigger] r[a]).1
                >= #[trigger] self.counts@[id]
    }

    /// Nothing counted yet.
    pub fn new() -> (f: ExpertFrequency)
        ensures
            f.wf(),
            f.counts@ == Map::<ExpertId, u64>::empty(),
            f.total_steps == 0,
    {
        ExpertFrequency { counts: KeyedMap::new(), total_steps: 0 }
    }

    /// One step activated the experts `activated`.
    pub fn record(&mut self, activated: &[ExpertId])
        requires
            old(self).wf(),
            old(self).has_room(activated@.len()),
        ensures
            final(self).wf(),
            final(self).total_steps == old(self).total_steps + 1,
            forall|id: ExpertId| #[trigger]
                final(self).activated(id) == old(self).activated(id) + activations(activated@, id),
            forall|id: ExpertId| #[trigger]
                final(self).counts@.contains_key(id) == (old(self).counts@.contains_key(id)
                    || activated@.contains(id)),
    {
        let ghost before = *self;
        self.total_steps = self.total_steps + 1;
        let mut i: usize = 0;
        assert(activated@.take(0) =~= Seq::<ExpertId>::empty());
        while i < activated.len()
            invariant
                i <= activated@.len(),
                self.wf(),
                before.has_room(activated@.len()),
                self.total_steps == before.total_steps + 1,
                forall|id: ExpertId| #[trigger]
                    self.activated(id) == before.activated(id) + activations(
                        activated@.take(i as int),
                        id,
                    ),
                forall|id: ExpertId| #[trigger]
                    self.counts@.contains_key(id) == (before.counts@.contains_key(id)
                        || activated@.take(i as int).contains(id)),
            decreases activated@.len() - i,
        {
            let id: ExpertId = activated[i];
            let ghost part = activated@.take(i as int);
            let ghost next = activated@.take(i + 1);
            proof {
                assert(next.drop_last() =~= part);
                assert(next.last() == id);
                activations_bounded(part, id);
                assert(before.activated(id) + activated@.len() <= u64::MAX);
                assert(self.activated(id) == before.activated(id) + activations(part, id));
            }
            let c: u64 = match self.counts.get(&id) {
                Some(c) => *c,
                None => 0,
            };
            let ghost mid = *self;
            self.counts.insert(id, c + 1);
            proof {
                assert forall|x: ExpertId| #[trigger] self.activated(x) == before.activated(x)
                    + activations(next, x) by {
                    assert(mid.activated(x) == before.activated(x) + activations(part, x));
                }
                assert forall|x: ExpertId| #[trigger] self.counts@.contains_key(x) == (
                before.counts@.contains_key(x) || next.contains(x)) by {
                    assert(mid.counts@.contains_key(x) == (before.counts@.contains_key(x)
                        || part.contains(x)));
                    if next.contains(x) {
                        let k = choose|k: int| 0 <= k < next.len() && next[k] == x;
                        if k < i {
                            assert(part[k] == x);
                        }
                    }
                    if part.contains(x) {
                        let k = choose|k: int| 0 <= k < part.len() && part[k] == x;
                        assert(next[k] == x);
                    }
                    if x == id {
                        assert(next[i as int] == x);
                    }
                }
            }
            i = i + 1;
        }
        assert(activated@.take(i as int) =~= activated@);
    }

    /// The `k` experts that were activated most often, with how often; most
    /// often first.
    pub fn top_k(&self, k: usize) -> (r: Vec<(ExpertId, u64)>)
        requires
            self.wf(),
        ensures
            self.is_top(r@, k as nat),
    {
        let mut keys: Vec<i128> = Vec::new();
        let ghost entries = self.counts.entries@;
        let mut i: usize = 0;
        while i < self.counts.entries.len()
            invariant
                entries == self.counts.entries@,
                i <= entries.len(),
                keys@.len() == i,
                forall|j: int| 0 <= j < i ==> #[trigger] keys@[j] == entries[j].1,
            decreases entries.len() - i,
        {
            keys.push(self.counts.entries[i].1 as i128);
            i = i + 1;
        }
        let order = rank_desc(&keys);
        let n: usize = if k <= order.len() {
            k
        } else {
            order.len()
        };
        let mut r: Vec<(ExpertId, u64)> = Vec::new();
        let mut j: usize = 0;
        while j < n
            invariant
                j <= n <= order@.len(),
                entries == self.counts.entries@,
                keys@.len() == entries.len(),
                is_ranking(keys@, order@),
                r@.len() == j,
                forall|a: int| 0 <= a < j ==> #[trigger] r@[a] == entries[order@[a] as int],
            decreases n - j,
        {
            assert(0 <= order@[j as int] < keys@.len());
            let at: usize = order[j];
            let id: ExpertId = self.counts.entries[at].0;
            let c: u64 = self.counts.entries[at].1;
            r.push((id, c));
            j = j + 1;
        }
        proof {
            assert(keys.len() == keys@.len());
            ranking_is_a_permutation(keys@, order@);
            assert forall|a: int| 0 <= a < r@.len() implies self.counts@.contains_key(
                (#[trigger] r@[a]).0,
            ) && r@[a].1 == self.counts@[r@[a].0] by {
                assert(0 <= order@[a] < keys@.len());
                self.counts.entry_in_view(order@[a] as int);
            }
            assert forall|a: int, b: int| 0 <= a < b < r@.len() implies (#[trigger] r@[a]).1 >= (
            #[trigger] r@[b]).1 && r@[a].0 != r@[b].0 by {
                ranking_descends(keys@, order@, a, b);
                assert(0 <= order@[a] < keys@.len() && 0 <= order@[b] < keys@.len());
                assert(order@[a] != order@[b]);
            }
            assert forall|a: int, id: ExpertId|
                0 <= a < r@.len() && self.counts@.contains_key(id) && (forall|b: int|
                    0 <= b < r@.len() ==> (#[trigger] r@[b]).0 != id) implies (#[trigger] r@[a]).1
                >= #[trigger] self.counts@[id] by {
                let x = self.counts.key_has_entry(id);
                assert(order@.contains(x as usize));
                let b = choose|b: int| 0 <= b < order@.len() && order@[b] == x as usize;
                if b < r@.len() {
                    assert(r@[b].0 == id);
                }
                ranking_descends(keys@, order@, a, b);
                assert(0 <= order@[a] < keys@.len());
            }
        }
        r
    }

    /// How often `id` was activated.
    pub fn count(&self, id: ExpertId) -> (c: u64)
        requires
            self.wf(),
        ensures
            c == self.activated(id),
    {
        match self.counts.get(&id) {
            Some(c) => *c,
            None => 0,
        }
    }

    /// An expert is hot where more than one step in a hundred activates it.
    pub open spec fn hot(&self, id: ExpertId) -> bool {
        100 * self.activated(id) > (if self.total_steps == 0 {
            1
        } else {
            self.total_steps as int
        })
    }

    /// Whether an expert is hot.
    pub fn is_hot(&self, id: ExpertId) -> (b: bool)
        requires
            self.wf(),
        ensures
            b == self.hot(id),
    {
        let c: u64 = self.count(id);
        let t: u64 = if self.total_steps == 0 {
            1
        } else {
            self.total_steps
        };
        100 * (c as u128) > t as u128
    }
}

// ─── The cache ───────────────────────────────────────────────────────────────

/// Where a block was found.
#[derive(Clone, Copy, Debug, PartialEq, Eq, Structural)]
pub enum CacheTier {
    Vram,
    Ram,
    Ssd,
}

/// The blocks of the two upper tiers as a mathematical value. The front of the
/// list is the block used last.
pub struct CacheModel {
    pub vram: Map<ExpertId, WeightBlock>,
    pub vram_used: int,
    pub ram: Map<ExpertId, WeightBlock>,
    pub ram_used: int,
    pub lru: Seq<ExpertId>,
}

impl CacheModel {
    /// Blocks leave main memory, least recently used first, until `size` more
    /// bytes fit or none is left.
    pub open spec fn making_room(self, size: int, ram_capacity: int) -> CacheModel
        decreases self.lru.len(),
    {
        if self.ram_used + size <= ram_capacity || self.lru.len() == 0 {
            self
        } else {
            let id = self.lru.last();
            (CacheModel {
                lru: self.lru.drop_last(),
                ram: self.ram.remove(id),
                ram_used: if self.ram.contains_key(id) {
                    self.ram_used - self.ram[id].data@.len()
                } else {
                    self.ram_used
                },
                ..self
            }).making_room(size, ram_capacity)
        }
    }

    /// A block enters main memory.
    pub open spec fn with_ram(self, block: WeightBlock, ram_capacity: int) -> CacheModel {
        let m = self.making_room(block.data@.len() as int, ram_capacity);
        CacheModel {
            ram: m.ram.insert(block.id, block),
            ram_used: m.ram_used + block.data@.len(),
            lru: seq![block.id] + m.lru,
            ..m
        }
    }

    /// A block enters video memory.
    pub open spec fn with_vram(self, block: WeightBlock) -> CacheModel {
        CacheModel {
            vram: self.vram.insert(block.id, block),
            vram_used: self.vram_used + block.data@.len(),
            ..self
        }
    }

    /// A block moves from video memory to main memory.
    pub open spec fn demoted(self, id: ExpertId, ram_capacity: int) -> CacheModel {
        (CacheModel {
            vram: self.vram.remove(id),
            vram_used: self.vram_used - self.vram[id].data@.len(),
            ..self
        }).with_ram(self.vram[id], ram_capacity)
    }

    /// Blocks move from video memory to main memory one after the other.
    pub open spec fn all_demoted(self, ids: Seq<ExpertId>, ram_capacity: int) -> CacheModel
        decreases ids.len(),
    {
        if ids.len() == 0 {
            self
        } else {
            self.all_demoted(ids.drop_last(), ram_capacity).demoted(ids.last(), ram_capacity)
        }
    }

    /// Blocks enter video memory one after the other, as far as they fit.
    pub open spec fn promoted(self, blocks: Seq<WeightBlock>, vram_capacity: int) -> CacheModel
        decreases blocks.len(),
    {
        if blocks.len() == 0 {
            self
        } else {
            let m = self.promoted(blocks.drop_last(), vram_capacity);
            if m.vram_used + blocks.last().data@.len() <= vram_capacity {
                m.with_vram(blocks.last())
            } else {
                m
            }
        }
    }

    /// Block `id` was used last.
    pub open spec fn touched(self, id: ExpertId) -> CacheModel {
        CacheModel { lru: seq![id] + without(self.lru, id), ..self }
    }
}

/// The block of `vram` that was activated least often.
pub open spec fn coldest_of(
    vram: Map<ExpertId, WeightBlock>,
    frequency: ExpertFrequency,
    id: ExpertId,
) -> bool {
    &&& vram.contains_key(id)
    &&& forall|x: ExpertId| #[trigger]
        vram.contains_key(x) ==> frequency.activated(id) <= frequency.activated(x)
}

/// The bytes of a block.
pub open spec fn block_size() -> spec_fn(WeightBlock) -> nat {
    |b: WeightBlock| b.data@.len()
}

/// Blocks in video memory and main memory.
pub struct ExpertCache {
    pub vram_capacity: usize,
    pub vram_used: usize,
    pub vram: KeyedMap<ExpertId, WeightBlock>,
    pub ram_capacity: usize,
    pub ram_used: usize,
    pub ram: KeyedMap<ExpertId, WeightBlock>,
    /// The blocks of main memory; the front was used last.
    pub ram_lru: VecDeque<ExpertId>,
    pub frequency: ExpertFrequency,
    pub hits_vram: u64,
    pub hits_ram: u64,
    pub hits_ssd: u64,
}

/// Whether `size` more bytes fit.
fn fits(used: usize, size: usize, capacity: usize) -> (b: bool)
    ensures
        b == (used + size <= capacity),
{
    size <= capacity && used <= capacity - size
}

impl ExpertCache {
    /// The blocks of the two upper tiers.
    pub open spec fn model(&self) -> CacheModel {
        CacheModel {
            vram: self.vram@,
            vram_used: self.vram_used as int,
            ram: self.ram@,
            ram_used: self.ram_used as int,
            lru: self.ram_lru@,
        }
    }

    /// Each tier is charged for all of its blocks.
    pub open spec fn wf(&self) -> bool {
        &&& self.vram.wf()
        &&& self.ram.wf()
        &&& self.frequency.wf()
        &&& self.vram.total(block_size()) <= self.vram_used
        &&& self.ram.total(block_size()) <= self.ram_used
    }

    /// Main memory is charged for its blocks and for nothing else, and each of them
    /// can be found by its last use. This holds as long as no block enters main memory
    /// a second time.
    pub open spec fn ram_exact(&self) -> bool {
        &&& self.ram.total(block_size()) == self.ram_used
        &&& forall|id: ExpertId| #[trigger]
            self.ram@.contains_key(id) ==> self.ram_lru@.contains(id)
    }

    /// `size` more bytes can be counted in both tiers.
    pub open spec fn has_room(&self, size: nat) -> bool {
        self.vram_used + self.ram_used + size <= usize::MAX
    }

    /// The block of video memory that was activated least often.
    pub open spec fn coldest(&self, id: ExpertId) -> bool {
        coldest_of(self.vram@, self.frequency, id)
    }

    /// What becomes of the blocks when `block` comes in. A hot block that video
    /// memory has the capacity for goes there: as long as it does not fit, the
    /// coldest block there, if it is colder, makes way for it to main memory. All
    /// others go to main memory.
    pub open spec fn takes(&self, block: WeightBlock, after: CacheModel) -> bool {
        let m = self.model();
        let ram = self.ram_capacity as int;
        if self.frequency.hot(block.id) && block.data@.len() <= self.vram_capacity {
            exists|gone: Seq<ExpertId>|
                {
                    &&& #[trigger] self.make_way(m, gone, block)
                    &&& if self.fits(m.all_demoted(gone, ram), block) {
                        after == m.all_demoted(gone, ram).with_vram(block)
                    } else {
                        &&& forall|v: ExpertId| #[trigger]
                            coldest_of(m.all_demoted(gone, ram).vram, self.frequency, v)
                                ==> !self.colder(v, block.id)
                        &&& after == m.all_demoted(gone, ram).with_ram(block, ram)
                    }
                }
        } else {
            after == m.with_ram(block, ram)
        }
    }

    /// The block fits into video memory.
    pub open spec fn fits(&self, m: CacheModel, block: WeightBlock) -> bool {
        m.vram_used + block.data@.len() <= self.vram_capacity
    }

    /// Expert `v` was activated less often than expert `id`.
    pub open spec fn colder(&self, v: ExpertId, id: ExpertId) -> bool {
        self.frequency.activated(v) < self.frequency.activated(id)
    }

    /// The blocks `gone` make way for `block` one after the other: each is the
    /// coldest that is left, colder than `block`, and needed to make it fit.
    pub open spec fn make_way(
        &self,
        m: CacheModel,
        gone: Seq<ExpertId>,
        block: WeightBlock,
    ) -> bool
        decreases gone.len(),
    {
        gone.len() == 0 || {
            let before = m.all_demoted(gone.drop_last(), self.ram_capacity as int);
            &&& self.make_way(m, gone.drop_last(), block)
            &&& !self.fits(before, block)
            &&& coldest_of(before.vram, self.frequency, gone.last())
            &&& self.colder(gone.last(), block.id)
        }
    }

    /// An empty cache with budgets in bytes.
    pub fn new(vram_budget: usize, ram_budget: usize) -> (c: ExpertCache)
        ensures
            c.wf(),
            c.ram_exact(),
            c.vram_capacity == vram_budget,
            c.ram_capacity == ram_budget,
            c.model() == (CacheModel {
                vram: Map::empty(),
                vram_used: 0,
                ram: Map::empty(),
                ram_used: 0,
                lru: Seq::empty(),
            }),
            c.frequency.counts@ == Map::<ExpertId, u64>::empty(),
            c.frequency.total_steps == 0,
            c.hits_vram == 0,
            c.hits_ram == 0,
            c.hits_ssd == 0,
    {
        ExpertCache {
            vram_capacity: vram_budget,
            vram_used: 0,
            vram: KeyedMap::new(),
            ram_capacity: ram_budget,
            ram_used: 0,
            ram: KeyedMap::new(),
            ram_lru: VecDeque::new(),
            frequency: ExpertFrequency::new(),
            hits_vram: 0,
            hits_ram: 0,
            hits_ssd: 0,
        }
    }

    /// How often a block was found in video memory, in main memory, and not at
    /// all.
    pub open spec fn counters(&self) -> (int, int, int) {
        (self.hits_vram as int, self.hits_ram as int, self.hits_ssd as int)
    }

    /// The counters after `id` was looked for once more.
    pub open spec fn counted(&self, id: ExpertId) -> (int, int, int) {
        if self.vram@.contains_key(id) {
            (self.hits_vram + 1, self.hits_ram as int, self.hits_ssd as int)
        } else if self.ram@.contains_key(id) {
            (self.hits_vram as int, self.hits_ram + 1, self.hits_ssd as int)
        } else {
            (self.hits_vram as int, self.hits_ram as int, self.hits_ssd + 1)
        }
    }

    /// The block of `id`, and the tier it was found in. A block of main memory
    /// counts as used last from now on.
    pub fn get(&mut self, id: ExpertId) -> (r: Option<(CacheTier, &WeightBlock)>)
        requires
            old(self).wf(),
            old(self).hits_vram < u64::MAX,
            old(self).hits_ram < u64::MAX,
            old(self).hits_ssd < u64::MAX,
        ensures
            final(self).wf(),
            old(self).ram_exact() ==> final(self).ram_exact(),
            final(self).vram_capacity == old(self).vram_capacity,
            final(self).ram_capacity == old(self).ram_capacity,
            final(self).frequency == old(self).frequency,
            final(self).model() == if !old(self).vram@.contains_key(id) && old(
                self,
            ).ram@.contains_key(id) {
                old(self).model().touched(id)
            } else {
                old(self).model()
            },
            ({
                let in_vram = old(self).vram@.contains_key(id);
                let in_ram = old(self).ram@.contains_key(id);
                &&& final(self).counters() == old(self).counted(id)
                &&& match r {
                    Some((t, b)) => if in_vram {
                        t == CacheTier::Vram && *b == old(self).vram@[id]
                    } else {
                        in_ram && t == CacheTier::Ram && *b == old(self).ram@[id]
                    },
                    None => !in_vram && !in_ram,
                }
            }),
    {
        if self.vram.contains_key(&id) {
            self.hits_vram = self.hits_vram + 1;
            return match self.vram.get(&id) {
                Some(b) => Some((CacheTier::Vram, b)),
                None => None,
            };
        }
        if self.ram.contains_key(&id) {
            self.hits_ram = self.hits_ram + 1;
            let mut kept = drop_key(&self.ram_lru, id);
            kept.push_front(id);
            self.ram_lru = kept;
            proof {
                let lru = old(self).ram_lru@;
                assert(self.ram_lru@ =~= seq![id] + without(lru, id));
                assert forall|x: ExpertId| #[trigger] lru.contains(x) implies self.ram_lru@.contains(
                    x,
                ) by {
                    if x == id {
                        assert(self.ram_lru@[0] == x);
                    } else {
                        without_keeps_others(lru, id, x);
                        let rest = without(lru, id);
                        let k = choose|k: int| 0 <= k < rest.len() && rest[k] == x;
                        assert(self.ram_lru@[k + 1] == x);
                    }
                }
            }
            return match self.ram.get(&id) {
                Some(b) => Some((CacheTier::Ram, b)),
                None => None,
            };
        }
        self.hits_ssd = self.hits_ssd + 1;
        None
    }

    /// Puts a block into main memory, after the blocks used least recently have
    /// left it as far as that makes room.
    pub fn insert_ram(&mut self, block: WeightBlock)
        requires
            old(self).wf(),
            old(self).ram_used + block.data@.len() <= usize::MAX,
        ensures
            final(self).wf(),
            final(self).vram == old(self).vram,
            final(self).vram_used == old(self).vram_used,
            final(self).vram_capacity == old(self).vram_capacity,
            final(self).ram_capacity == old(self).ram_capacity,
            final(self).frequency == old(self).frequency,
            final(self).hits_vram == old(self).hits_vram,
            final(self).hits_ram == old(self).hits_ram,
            final(self).hits_ssd == old(self).hits_ssd,
            final(self).model() == old(self).model().with_ram(
                block,
                old(self).ram_capacity as int,
            ),
            final(self).ram_used <= old(self).ram_used + block.data@.len(),
            old(self).ram_exact() && !old(self).ram@.contains_key(block.id)
                ==> final(self).ram_exact() && (block.data@.len() <= old(self).ram_capacity
                ==> final(self).ram_used <= final(self).ram_capacity),
    {
        let id: ExpertId = block.id;
        let size: usize = block.data.len();
        let ghost start = *self;
        let ghost goal = self.model().making_room(size as int, self.ram_capacity as int);
        while !fits(self.ram_used, size, self.ram_capacity) && self.ram_lru.len() > 0
            invariant
                self.wf(),
                self.ram_used <= start.ram_used,
                self.vram == start.vram,
                self.vram_used == start.vram_used,
                self.vram_capacity == start.vram_capacity,
                self.ram_capacity == start.ram_capacity,
                self.frequency == start.frequency,
                self.hits_vram == start.hits_vram,
                self.hits_ram == start.hits_ram,
                self.hits_ssd == start.hits_ssd,
                goal == self.model().making_room(size as int, self.ram_capacity as int),
                start.ram_exact() ==> self.ram_exact(),
                forall|x: ExpertId| #[trigger]
                    self.ram@.contains_key(x) ==> start.ram@.contains_key(x),
            decreases self.ram_lru@.len(),
        {
            let ghost before = *self;
            match self.ram_lru.pop_back() {
                Some(evict) => {
                    assert(self.ram_lru@ =~= before.ram_lru@.drop_last());
                    match self.ram.remove(&evict) {
                        Some(b) => {
                            proof {
                                assert(self.ram.total(block_size()) + block_size()(b)
                                    == before.ram.total(block_size()));
                            }
                            self.ram_used = self.ram_used - b.data.len();
                        },
                        None => {},
                    }
                    proof {
                        let lru = before.ram_lru@;
                        assert forall|x: ExpertId| #[trigger]
                            self.ram@.contains_key(x) && lru.contains(x) implies self.ram_lru@.contains(
                        x) by {
                            let k = choose|k: int| 0 <= k < lru.len() && lru[k] == x;
                            assert(self.ram_lru@[k] == x);
                        }
                    }
                },
                None => {},
            }
        }
        let ghost mid = *self;
        proof {
            if mid.ram_exact() && mid.ram_lru@.len() == 0 && mid.ram.entries@.len() > 0 {
                mid.ram.entry_in_view(0);
                assert(mid.ram_lru@.contains(mid.ram.entries@[0].0));
            }
        }
        self.ram_used = self.ram_used + size;
        self.ram_lru.push_front(id);
        self.ram.insert(id, block);
        proof {
            assert(self.ram.total(block_size()) <= mid.ram.total(block_size()) + block_size()(
                block,
            ));
            assert(self.ram_lru@ =~= seq![id] + mid.ram_lru@);
            assert forall|x: ExpertId| #[trigger]
                self.ram@.contains_key(x) && (x == id || mid.ram_lru@.contains(x)) implies self.ram_lru@.contains(
            x) by {
                if x == id {
                    assert(self.ram_lru@[0] == x);
                } else {
                    let k = choose|k: int| 0 <= k < mid.ram_lru@.len() && mid.ram_lru@[k] == x;
                    assert(self.ram_lru@[k + 1] == x);
                }
            }
        }
    }

    /// Puts a block where it belongs. A hot block that video memory has the
    /// capacity for goes there: as long as it does not fit, the coldest block there,
    /// if it is colder, makes way for it to main memory. All others go to main
    /// memory.
    pub fn insert(&mut self, block: WeightBlock)
        requires
            old(self).wf(),
            old(self).has_room(block.data@.len()),
        ensures
            final(self).wf(),
            final(self).vram_capacity == old(self).vram_capacity,
            final(self).ram_capacity == old(self).ram_capacity,
            final(self).frequency == old(self).frequency,
            final(self).hits_vram == old(self).hits_vram,
            final(self).hits_ram == old(self).hits_ram,
            final(self).hits_ssd == old(self).hits_ssd,
            old(self).takes(block, final(self).model()),
            old(self).vram_used <= old(self).vram_capacity ==> final(self).vram_used
                <= final(self).vram_capacity,
    {
        let id: ExpertId = block.id;
        let size: usize = block.data.len();
        let ghost start = *self;
        let ghost m = self.model();
        let ghost ram = self.ram_capacity as int;
        if !self.frequency.is_hot(id) || size > self.vram_capacity {
            self.insert_ram(block);
            return ;
        }
        let ghost mut gone: Seq<ExpertId> = Seq::empty();
        while !fits(self.vram_used, size, self.vram_capacity)
            invariant
                self.wf(),
                start == *old(self),
                m == start.model(),
                ram == start.ram_capacity,
                id == block.id,
                size == block.data@.len(),
                start.frequency.hot(id),
                size <= start.vram_capacity,
                self.vram_capacity == start.vram_capacity,
                self.ram_capacity == start.ram_capacity,
                self.frequency == start.frequency,
                self.hits_vram == start.hits_vram,
                self.hits_ram == start.hits_ram,
                self.hits_ssd == start.hits_ssd,
                self.has_room(size as nat),
                self.vram_used <= start.vram_used,
                start.make_way(m, gone, block),
                self.model() == m.all_demoted(gone, ram),
            decreases self.vram.entries@.len(),
        {
            let ghost now = *self;
            let cold: Option<ExpertId> = match self.find_coldest() {
                Some(v) => {
                    if self.frequency.count(v) < self.frequency.count(id) {
                        Some(v)
                    } else {
                        proof {
                            assert forall|x: ExpertId| #[trigger]
                                coldest_of(now.vram@, start.frequency, x) implies !start.colder(
                                x,
                                id,
                            ) by {
                                assert(now.vram@.contains_key(x));
                            }
                        }
                        None
                    }
                },
                None => {
                    assert forall|x: ExpertId| !#[trigger] coldest_of(
                        now.vram@,
                        start.frequency,
                        x,
                    ) by {}
                    None
                },
            };
            let v: ExpertId = match cold {
                Some(v) => v,
                None => {
                    self.insert_ram(block);
                    proof {
                        assert(start.make_way(m, gone, block));
                        assert(!start.fits(m.all_demoted(gone, ram), block));
                    }
                    return ;
                },
            };
            match self.vram.remove(&v) {
                Some(evicted) => {
                    proof {
                        assert(self.vram.total(block_size()) + block_size()(evicted)
                            == now.vram.total(block_size()));
                    }
                    self.vram_used = self.vram_used - evicted.data.len();
                    self.insert_ram(evicted);
                },
                None => {},
            }
            proof {
                let more = gone.push(v);
                assert(more.drop_last() =~= gone);
                assert(start.make_way(m, more, block));
                assert(self.model() == now.model().demoted(v, ram));
                gone = more;
            }
        }
        let ghost mid = *self;
        self.vram_used = self.vram_used + size;
        self.vram.insert(id, block);
        proof {
            assert(self.vram.total(block_size()) <= mid.vram.total(block_size()) + block_size()(
                block,
            ));
            assert(start.make_way(m, gone, block));
            assert(start.fits(m.all_demoted(gone, ram), block));
        }
    }

    /// The block of video memory that was activated least often.
    fn find_coldest(&self) -> (r: Option<ExpertId>)
        requires
            self.wf(),
        ensures
            match r {
                Some(v) => self.coldest(v),
                None => self.vram@ == Map::<ExpertId, WeightBlock>::empty(),
            },
    {
        let n: usize = self.vram.entries.len();
        if n == 0 {
            assert(self.vram@ =~= Map::<ExpertId, WeightBlock>::empty());
            return None;
        }
        let mut best: usize = 0;
        let mut low: u64 = self.frequency.count(self.vram.entries[0].0);
        let mut i: usize = 1;
        while i < n
            invariant
                self.wf(),
                n == self.vram.entries@.len(),
                best < i <= n,
                low == self.frequency.activated(self.vram.entries@[best as int].0),
                forall|j: int|
                    0 <= j < i ==> low <= self.frequency.activated(
                        (#[trigger] self.vram.entries@[j]).0,
                    ),
            decreases n - i,
        {
            let c: u64 = self.frequency.count(self.vram.entries[i].0);
            if c < low {
                low = c;
                best = i;
            }
            i = i + 1;
        }
        let v: ExpertId = self.vram.entries[best].0;
        proof {
            self.vram.entry_in_view(best as int);
            assert forall|x: ExpertId| #[trigger]
                self.vram@.contains_key(x) implies self.frequency.activated(v)
                <= self.frequency.activated(x) by {
                let j = self.vram.key_has_entry(x);
                assert(self.vram.entries@[j].0 == x);
            }
        }
        Some(v)
    }

    /// Puts blocks into video memory, one after the other, as far as they fit.
    pub fn promote_top_k(&mut self, blocks: Vec<WeightBlock>)
        requires
            old(self).wf(),
        ensures
            final(self).wf(),
            final(self).vram_capacity == old(self).vram_capacity,
            final(self).ram_capacity == old(self).ram_capacity,
            final(self).frequency == old(self).frequency,
            final(self).hits_vram == old(self).hits_vram,
            final(self).hits_ram == old(self).hits_ram,
            final(self).hits_ssd == old(self).hits_ssd,
            final(self).model() == old(self).model().promoted(
                blocks@,
                old(self).vram_capacity as int,
            ),
            old(self).vram_used <= old(self).vram_capacity ==> final(self).vram_used <= old(
                self,
            ).vram_capacity,
    {
        let ghost start = *self;
        let ghost all = blocks@;
        assert(all.take(0) =~= Seq::<WeightBlock>::empty());
        for block in it: blocks
            invariant
                it.seq() == all,
                self.wf(),
                self.vram_capacity == start.vram_capacity,
                self.ram_capacity == start.ram_capacity,
                self.frequency == start.frequency,
                self.hits_vram == start.hits_vram,
                self.hits_ram == start.hits_ram,
                self.hits_ssd == start.hits_ssd,
                self.model() == start.model().promoted(
                    all.take(it.index()),
                    start.vram_capacity as int,
                ),
                start.vram_used <= start.vram_capacity ==> self.vram_used <= start.vram_capacity,
        {
            let ghost before = *self;
            proof {
                assert(all.take(it.index() + 1).drop_last() =~= all.take(it.index()));
                assert(all.take(it.index() + 1).last() == block);
            }
            let size: usize = block.data.len();
            if fits(self.vram_used, size, self.vram_capacity) {
                self.vram_used = self.vram_used + size;
                let id: ExpertId = block.id;
                self.vram.insert(id, block);
                proof {
                    assert(self.vram.total(block_size()) <= before.vram.total(block_size())
                        + block_size()(block));
                }
            }
        }
        assert(all.take(all.len() as int) =~= all);
    }
}

/// A block that enters main memory is there afterwards, in front of all others.
pub proof fn inserted_block_is_found(m: CacheModel, block: WeightBlock, ram_capacity: int)
    ensures
        m.with_ram(block, ram_capacity).ram.contains_key(block.id),
        m.with_ram(block, ram_capacity).ram[block.id] == block,
        m.with_ram(block, ram_capacity).lru[0] == block.id,
        m.with_ram(block, ram_capacity).vram == m.vram,
{
    making_room_keeps_vram(m, block.data@.len() as int, ram_capacity);
}

/// Main memory is filled beyond its capacity only by a block that is alone there:
/// all others have made way.
pub proof fn room_is_made_as_far_as_possible(m: CacheModel, block: WeightBlock, ram_capacity: int)
    ensures
        m.with_ram(block, ram_capacity).ram_used <= ram_capacity || m.with_ram(
            block,
            ram_capacity,
        ).lru == seq![block.id],
{
    making_room_keeps_vram(m, block.data@.len() as int, ram_capacity);
    let room = m.making_room(block.data@.len() as int, ram_capacity);
    if room.lru.len() == 0 {
        assert(seq![block.id] + room.lru =~= seq![block.id]);
    }
}

proof fn making_room_keeps_vram(m: CacheModel, size: int, ram_capacity: int)
    ensures
        m.making_room(size, ram_capacity).vram == m.vram,
        m.making_room(size, ram_capacity).vram_used == m.vram_used,
        m.making_room(size, ram_capacity).ram_used + size <= ram_capacity || m.making_room(
            size,
            ram_capacity,
        ).lru.len() == 0,
    decreases m.lru.len(),
{
    if !(m.ram_used + size <= ram_capacity || m.lru.len() == 0) {
        let id = m.lru.last();
        making_room_keeps_vram(
            CacheModel {
                lru: m.lru.drop_last(),
                ram: m.ram.remove(id),
                ram_used: if m.ram.contains_key(id) {
                    m.ram_used - m.ram[id].data@.len()
                } else {
                    m.ram_used
                },
                ..m
            },
            size,
            ram_capacity,
        );
    }
}

// ─── The stream ──────────────────────────────────────────────────────────────

/// What `miniz_oxide::inflate::decompress_to_vec` makes of a deflate stream: the
/// bytes that it encodes, or the text of the error.
pub uninterp spec fn inflated(compressed: Seq<u8>) -> Result<Seq<u8>, Seq<char>>;

/// `miniz_oxide::inflate::decompress_to_vec`. The result depends on the bytes
/// alone; it is called by a name here. An error is handed on as its debug text.
#[verifier::external_body]
pub(crate) fn inflate(compressed: &[u8]) -> (r: Result<Vec<u8>, String>)
    ensures
        match r {
            Ok(v) => inflated(compressed@) == Ok::<Seq<u8>, Seq<char>>(v@),
            Err(m) => inflated(compressed@) == Err::<Seq<u8>, Seq<char>>(m@),
        },
{
    miniz_oxide::inflate::decompress_to_vec(compressed).map_err(|e| format!("{:?}", e))
}

/// Takes decompressed bytes where there are `expected` of them.
pub fn check_inflated(result: Result<Vec<u8>, String>, expected: usize) -> (r: Result<
    Vec<u8>,
    NodeStorError,
>)
    ensures
        match (result, r) {
            (Ok(v), Ok(w)) => v@.len() == expected && w == v,
            (Ok(v), Err(e)) => v@.len() != expected && e is InferenceError && e.text()
                == "gdeflate: expected "@ + dec(expected as nat) + " bytes, got "@ + dec(v@.len()),
            (Err(m), Err(e)) => e is InferenceError && e.text() == "gdeflate decompress: "@ + m@,
            _ => false,
        },
{
    match result {
        Ok(v) => {
            if v.len() != expected {
                let mut m = "gdeflate: expected ".to_string();
                push_dec(&mut m, expected as u64);
                m.append(" bytes, got ");
                push_dec(&mut m, v.len() as u64);
                return Err(NodeStorError::InferenceError(m));
            }
            Ok(v)
        },
        Err(t) => {
            let mut m = "gdeflate decompress: ".to_string();
            m.append(t.as_str());
            Err(NodeStorError::InferenceError(m))
        },
    }
}

/// How experts are streamed.
pub struct SsdStreamConfig {
    pub gguf_path: String,
    pub vram_budget: usize,
    pub ram_budget: usize,
    pub prefetch_depth: usize,
    pub gdeflate: bool,
    pub experts_per_layer: u32,
    pub active_experts: u32,
}

impl Default for SsdStreamConfig {
    /// Half a gibibyte of video memory, eight of main memory (or as much as can
    /// be counted), for a dense model.
    fn default() -> (c: SsdStreamConfig)
        ensures
            c.gguf_path@ == Seq::<char>::empty(),
            c.vram_budget == 512 * 1_048_576,
            c.ram_budget == if usize::MAX >= 8_589_934_592int {
                8_589_934_592int
            } else {
                usize::MAX as int
            },
            c.prefetch_depth == 2,
            !c.gdeflate,
            c.experts_per_layer == 1,
            c.active_experts == 1,
    {
        let wanted: u64 = 8 * 1024 * 1_048_576;
        let limit: u64 = usize::MAX as u64;
        SsdStreamConfig {
            gguf_path: String::new(),
            vram_budget: 512 * 1_048_576,
            ram_budget: if wanted <= limit {
                wanted as usize
            } else {
                usize::MAX
            },
            prefetch_depth: 2,
            gdeflate: false,
            experts_per_layer: 1,
            active_experts: 1,
        }
    }
}

/// What is to be done for an expert.
pub enum FetchStep {
    /// The block is in memory.
    Hit(WeightBlock),
    /// The block has to be read from disk.
    Read(ExpertDiskEntry),
}

/// The block that bytes read from disk hold.
pub open spec fn decoded(id: ExpertId, entry: ExpertDiskEntry, bytes: Seq<u8>) -> Result<
    BlockModel,
    Seq<char>,
> {
    let block = |data: Seq<u8>|
        BlockModel { id, data, quant: entry.quant, rows: entry.rows, cols: entry.cols };
    if !entry.is_compressed {
        Ok(block(bytes))
    } else {
        match inflated(bytes) {
            Err(t) => Err("gdeflate decompress: "@ + t),
            Ok(v) => if v.len() == entry.raw_bytes as usize {
                Ok(block(v))
            } else {
                Err(
                    "gdeflate: expected "@ + dec((entry.raw_bytes as usize) as nat)
                        + " bytes, got "@ + dec(v.len()),
                )
            },
        }
    }
}

/// The blocks of `ids` that are in main memory.
pub open spec fn blocks_in(ram: Map<ExpertId, WeightBlock>, ids: Seq<(ExpertId, u64)>) -> Seq<
    BlockModel,
>
    decreases ids.len(),
{
    if ids.len() == 0 {
        Seq::empty()
    } else {
        let before = blocks_in(ram, ids.drop_last());
        if ram.contains_key(ids.last().0) {
            before.push(ram[ids.last().0]@)
        } else {
            before
        }
    }
}

/// Serves the experts of each token from the cache, and says what to read where
/// the cache lacks one.
pub struct SsdWeightStream {
    pub cfg: SsdStreamConfig,
    pub disk_index: KeyedMap<ExpertId, ExpertDiskEntry>,
    pub cache: ExpertCache,
    pub total_io_bytes: u64,
    pub tokens_served: u64,
}

impl SsdWeightStream {
    pub open spec fn wf(&self) -> bool {
        self.disk_index.wf() && self.cache.wf()
    }

    /// One more lookup can be counted.
    pub open spec fn can_lookup(&self) -> bool {
        self.cache.hits_vram < u64::MAX && self.cache.hits_ram < u64::MAX && self.cache.hits_ssd
            < u64::MAX
    }

    /// A stream over the blocks of `disk_index`, with an empty cache.
    pub fn new(cfg: SsdStreamConfig, disk_index: KeyedMap<ExpertId, ExpertDiskEntry>) -> (s:
        SsdWeightStream)
        requires
            disk_index.wf(),
        ensures
            s.wf(),
            s.cfg == cfg,
            s.disk_index == disk_index,
            s.cache.vram_capacity == cfg.vram_budget,
            s.cache.ram_capacity == cfg.ram_budget,
            s.cache.model() == (CacheModel {
                vram: Map::empty(),
                vram_used: 0,
                ram: Map::empty(),
                ram_used: 0,
                lru: Seq::empty(),
            }),
            s.cache.frequency.counts@ == Map::<ExpertId, u64>::empty(),
            s.cache.frequency.total_steps == 0,
            s.cache.counters() == (0int, 0int, 0int),
            s.total_io_bytes == 0,
            s.tokens_served == 0,
    {
        let cache = ExpertCache::new(cfg.vram_budget, cfg.ram_budget);
        SsdWeightStream { cfg, disk_index, cache, total_io_bytes: 0, tokens_served: 0 }
    }

    /// What is to be done for expert `id`; an error where it is neither in memory
    /// nor on disk.
    pub fn lookup(&mut self, id: ExpertId) -> (r: Result<FetchStep, NodeStorError>)
        requires
            old(self).wf(),
            old(self).can_lookup(),
        ensures
            final(self).wf(),
            final(self).cfg == old(self).cfg,
            final(self).disk_index == old(self).disk_index,
            final(self).total_io_bytes == old(self).total_io_bytes,
            final(self).tokens_served == old(self).tokens_served,
            final(self).cache.frequency == old(self).cache.frequency,
            final(self).cache.vram_capacity == old(self).cache.vram_capacity,
            final(self).cache.ram_capacity == old(self).cache.ram_capacity,
            final(self).cache.counters() == old(self).cache.counted(id),
            ({
                let in_vram = old(self).cache.vram@.contains_key(id);
                let in_ram = old(self).cache.ram@.contains_key(id);
                &&& final(self).cache.model() == if !in_vram && in_ram {
                    old(self).cache.model().touched(id)
                } else {
                    old(self).cache.model()
                }
                &&& match r {
                    Ok(FetchStep::Hit(b)) => if in_vram {
                        b@ == old(self).cache.vram@[id]@
                    } else {
                        in_ram && b@ == old(self).cache.ram@[id]@
                    },
                    Ok(FetchStep::Read(e)) => !in_vram && !in_ram && old(
                        self,
                    ).disk_index@.contains_key(id) && e == old(self).disk_index@[id],
                    Err(e) => !in_vram && !in_ram && !old(self).disk_index@.contains_key(id) && e
                        is InferenceError && e.text() == "ssd_stream: expert "@ + id.text()
                        + " not found in disk index"@,
                }
            }),
    {
        match self.cache.get(id) {
            Some((_tier, block)) => {
                return Ok(FetchStep::Hit(block.copy()));
            },
            None => {},
        }
        match self.disk_index.get(&id) {
            Some(e) => Ok(FetchStep::Read(*e)),
            None => {
                let mut m = "ssd_stream: expert ".to_string();
                push_expert(&mut m, id);
                m.append(" not found in disk index");
                Err(NodeStorError::InferenceError(m))
            },
        }
    }

    /// The bytes of a deflate stream, where there are `expected_len` of them.
    pub fn gdeflate_decompress(&self, compressed: &[u8], expected_len: usize) -> (r: Result<
        Vec<u8>,
        NodeStorError,
    >)
        ensures
            match (inflated(compressed@), r) {
                (Ok(v), Ok(w)) => v.len() == expected_len && w@ == v,
                (Ok(v), Err(e)) => v.len() != expected_len && e is InferenceError && e.text()
                    == "gdeflate: expected "@ + dec(expected_len as nat) + " bytes, got "@ + dec(
                    v.len(),
                ),
                (Err(t), Err(e)) => e is InferenceError && e.text() == "gdeflate decompress: "@ + t,
                _ => false,
            },
    {
        check_inflated(inflate(compressed), expected_len)
    }

    /// The block that `buf`, the bytes read for `entry`, holds.
    pub fn read_from_disk(&mut self, id: ExpertId, entry: ExpertDiskEntry, buf: Vec<u8>) -> (r:
        Result<WeightBlock, NodeStorError>)
        requires
            old(self).wf(),
            old(self).total_io_bytes + buf@.len() <= u64::MAX,
        ensures
            final(self).wf(),
            final(self).cfg == old(self).cfg,
            final(self).disk_index == old(self).disk_index,
            final(self).cache == old(self).cache,
            final(self).tokens_served == old(self).tokens_served,
            final(self).total_io_bytes == old(self).total_io_bytes + buf@.len(),
            match (r, decoded(id, entry, buf@)) {
                (Ok(b), Ok(m)) => b@ == m,
                (Err(e), Err(t)) => e is InferenceError && e.text() == t,
                _ => false,
            },
    {
        self.total_io_bytes = self.total_io_bytes + buf.len() as u64;
        let data = if entry.is_compressed {
            match self.gdeflate_decompress(buf.as_slice(), entry.raw_bytes as usize) {
                Ok(v) => v,
                Err(e) => {
                    return Err(e);
                },
            }
        } else {
            buf
        };
        Ok(WeightBlock { id, data, quant: entry.quant, rows: entry.rows, cols: entry.cols })
    }

    /// Puts a block that was read into the cache. Returns a copy of it.
    pub fn keep(&mut self, block: WeightBlock) -> (copy: WeightBlock)
        requires
            old(self).wf(),
            old(self).cache.has_room(block.data@.len()),
        ensures
            final(self).wf(),
            final(self).cfg == old(self).cfg,
            final(self).disk_index == old(self).disk_index,
            final(self).total_io_bytes == old(self).total_io_bytes,
            final(self).tokens_served == old(self).tokens_served,
            final(self).cache.frequency == old(self).cache.frequency,
            final(self).cache.vram_capacity == old(self).cache.vram_capacity,
            final(self).cache.ram_capacity == old(self).cache.ram_capacity,
            final(self).cache.counters() == old(self).cache.counters(),
            copy@ == block@,
            old(self).cache.takes(block, final(self).cache.model()),
            old(self).cache.vram_used <= old(self).cache.vram_capacity
                ==> final(self).cache.vram_used <= final(self).cache.vram_capacity,
    {
        let copy = block.copy();
        self.cache.insert(block);
        copy
    }

    /// All experts of a token have been served: they count as activated.
    pub fn finish_fetch(&mut self, experts: &[ExpertId])
        requires
            old(self).wf(),
            old(self).cache.frequency.has_room(experts@.len()),
            old(self).tokens_served < u64::MAX,
        ensures
            final(self).wf(),
            final(self).cfg == old(self).cfg,
            final(self).disk_index == old(self).disk_index,
            final(self).total_io_bytes == old(self).total_io_bytes,
            final(self).tokens_served == old(self).tokens_served + 1,
            final(self).cache.vram_capacity == old(self).cache.vram_capacity,
            final(self).cache.ram_capacity == old(self).cache.ram_capacity,
            final(self).cache.counters() == old(self).cache.counters(),
            final(self).cache.model() == old(self).cache.model(),
            final(self).cache.frequency.total_steps == old(self).cache.frequency.total_steps + 1,
            forall|id: ExpertId| #[trigger]
                final(self).cache.frequency.activated(id) == old(self).cache.frequency.activated(id)
                    + activations(experts@, id),
            forall|id: ExpertId| #[trigger]
                final(self).cache.frequency.counts@.contains_key(id) == (old(
                    self,
                ).cache.frequency.counts@.contains_key(id) || experts@.contains(id)),
    {
        self.cache.frequency.record(experts);
        self.tokens_served = self.tokens_served + 1;
    }

    /// What is to be read so that expert `id` is in memory when it is needed;
    /// nothing where it is there already or unknown.
    pub fn prefetch_lookup(&mut self, id: ExpertId) -> (r: Option<ExpertDiskEntry>)
        requires
            old(self).wf(),
            old(self).can_lookup(),
        ensures
            final(self).wf(),
            final(self).cfg == old(self).cfg,
            final(self).disk_index == old(self).disk_index,
            final(self).total_io_bytes == old(self).total_io_bytes,
            final(self).tokens_served == old(self).tokens_served,
            final(self).cache.frequency == old(self).cache.frequency,
            final(self).cache.vram_capacity == old(self).cache.vram_capacity,
            final(self).cache.ram_capacity == old(self).cache.ram_capacity,
            final(self).cache.counters() == old(self).cache.counted(id),
            ({
                let in_vram = old(self).cache.vram@.contains_key(id);
                let in_ram = old(self).cache.ram@.contains_key(id);
                &&& final(self).cache.model() == if !in_vram && in_ram {
                    old(self).cache.model().touched(id)
                } else {
                    old(self).cache.model()
                }
                &&& r == if in_vram || in_ram || !old(self).disk_index@.contains_key(id) {
                    None::<ExpertDiskEntry>
                } else {
                    Some(old(self).disk_index@[id])
                }
            }),
    {
        if self.cache.get(id).is_some() {
            return None;
        }
        match self.disk_index.get(&id) {
            Some(e) => Some(*e),
            None => None,
        }
    }

    /// Puts a block that was read ahead into main memory.
    pub fn keep_prefetched(&mut self, block: WeightBlock)
        requires
            old(self).wf(),
            old(self).cache.ram_used + block.data@.len() <= usize::MAX,
        ensures
            final(self).wf(),
            final(self).cfg == old(self).cfg,
            final(self).disk_index == old(self).disk_index,
            final(self).total_io_bytes == old(self).total_io_bytes,
            final(self).tokens_served == old(self).tokens_served,
            final(self).cache.frequency == old(self).cache.frequency,
            final(self).cache.vram_capacity == old(self).cache.vram_capacity,
            final(self).cache.ram_capacity == old(self).cache.ram_capacity,
            final(self).cache.counters() == old(self).cache.counters(),
            final(self).cache.model() == old(self).cache.model().with_ram(
                block,
                old(self).cache.ram_capacity as int,
            ),
    {
        self.cache.insert_ram(block);
    }

    /// Puts those of the `top_n` most activated experts that are in main memory
    /// into video memory as well, as far as they fit.
    pub fn promote_hot_experts(&mut self, top_n: usize)
        requires
            old(self).wf(),
        ensures
            final(self).wf(),
            final(self).cfg == old(self).cfg,
            final(self).disk_index == old(self).disk_index,
            final(self).total_io_bytes == old(self).total_io_bytes,
            final(self).tokens_served == old(self).tokens_served,
            final(self).cache.frequency == old(self).cache.frequency,
            final(self).cache.vram_capacity == old(self).cache.vram_capacity,
            final(self).cache.ram_capacity == old(self).cache.ram_capacity,
            final(self).cache.counters() == old(self).cache.counters(),
            exists|hot: Seq<(ExpertId, u64)>, blocks: Seq<WeightBlock>|
                #![trigger old(self).cache.frequency.is_top(hot, top_n as nat), old(self).cache.model().promoted(blocks, old(self).cache.vram_capacity as int)]
                old(self).cache.frequency.is_top(hot, top_n as nat) && block_views(blocks)
                    == blocks_in(old(self).cache.ram@, hot) && final(self).cache.model() == old(
                    self,
                ).cache.model().promoted(blocks, old(self).cache.vram_capacity as int),
    {
        let hot = self.cache.frequency.top_k(top_n);
        let ghost ram = self.cache.ram@;
        let mut picked: Vec<WeightBlock> = Vec::new();
        let mut i: usize = 0;
        assert(hot@.take(0) =~= Seq::<(ExpertId, u64)>::empty());
        assert(block_views(picked@) =~= Seq::<BlockModel>::empty());
        while i < hot.len()
            invariant
                self.wf(),
                ram == self.cache.ram@,
                *self == *old(self),
                i <= hot@.len(),
                block_views(picked@) == blocks_in(ram, hot@.take(i as int)),
            decreases hot@.len() - i,
        {
            proof {
                assert(hot@.take(i + 1).drop_last() =~= hot@.take(i as int));
                assert(hot@.take(i + 1).last() == hot@[i as int]);
            }
            let (id, _count) = hot[i];
            match self.cache.ram.get(&id) {
                Some(b) => {
                    let ghost before = picked@;
                    let copy = b.copy();
                    picked.push(copy);
                    assert(block_views(picked@) =~= block_views(before).push(b@));
                },
                None => {},
            }
            i = i + 1;
        }
        assert(hot@.take(i as int) =~= hot@);
        let ghost blocks = picked@;
        let ghost h = hot@;
        self.cache.promote_top_k(picked);
        proof {
            assert(old(self).cache.frequency.is_top(h, top_n as nat));
            assert(self.cache.model() == old(self).cache.model().promoted(
                blocks,
                old(self).cache.vram_capacity as int,
            ));
        }
    }

    pub fn experts_per_layer(&self) -> (n: u32)
        ensures
            n == self.cfg.experts_per_layer,
    {
        self.cfg.experts_per_layer
    }

    pub fn active_experts(&self) -> (n: u32)
        ensures
            n == self.cfg.active_experts,
    {
        self.cfg.active_experts
    }

    /// Whether the model is a mixture of experts.
    pub fn is_moe(&self) -> (b: bool)
        ensures
            b == (self.cfg.experts_per_layer > 1),
    {
        self.cfg.experts_per_layer > 1
    }
}

/// Blocks as mathematical values.
pub open spec fn block_views(blocks: Seq<WeightBlock>) -> Seq<BlockModel> {
    blocks.map_values(|b: WeightBlock| b@)
}

// ─── Reading ahead ───────────────────────────────────────────────────────────

/// Chooses the experts to read ahead.
pub struct ExpertPrefetcher {
    pub prefetch_factor: usize,
}

impl ExpertPrefetcher {
    pub fn new(prefetch_factor: usize) -> (p: ExpertPrefetcher)
        ensures
            p.prefetch_factor == prefetch_factor,
    {
        ExpertPrefetcher { prefetch_factor }
    }

    /// The experts of `layer` with the largest router logits, largest first: a
    /// multiple of the number that will be active, as far as there are so many.
    pub fn predict_next(&self, layer: u32, router_logits: &Vec<u32>, active_k: usize) -> (r: Vec<
        ExpertId,
    >)
        requires
            active_k * self.prefetch_factor <= usize::MAX,
            forall|i: int| 0 <= i < router_logits@.len() ==> !is_nan(#[trigger] router_logits@[i]),
            router_logits@.len() <= u32::MAX,
        ensures
            r@.len() == if active_k * self.prefetch_factor <= router_logits@.len() {
                (active_k * self.prefetch_factor) as nat
            } else {
                router_logits@.len()
            },
            forall|a: int|
                0 <= a < r@.len() ==> (#[trigger] r@[a]).layer == layer && r@[a].expert
                    < router_logits@.len(),
            forall|a: int, b: int|
                0 <= a < b < r@.len() ==> (#[trigger] r@[a]).expert != (#[trigger] r@[b]).expert
                    && !float_lt(
                    router_logits@[r@[a].expert as int],
                    router_logits@[r@[b].expert as int],
                ),
            forall|a: int, i: int|
                0 <= a < r@.len() && 0 <= i < router_logits@.len() && (forall|b: int|
                    0 <= b < r@.len() ==> (#[trigger] r@[b]).expert != i) ==> !float_lt(
                    router_logits@[(#[trigger] r@[a]).expert as int],
                    #[trigger] router_logits@[i],
                ),
    {
        let mut keys: Vec<i128> = Vec::new();
        let mut i: usize = 0;
        while i < router_logits.len()
            invariant
                i <= router_logits@.len(),
                keys@.len() == i,
                forall|j: int| 0 <= j < i ==> #[trigger] keys@[j] == rank(router_logits@[j]),
            decreases router_logits@.len() - i,
        {
            keys.push(rank_of(router_logits[i]) as i128);
            i = i + 1;
        }
        let order = rank_desc(&keys);
        let want: usize = active_k * self.prefetch_factor;
        let n: usize = if want <= order.len() {
            want
        } else {
            order.len()
        };
        let mut r: Vec<ExpertId> = Vec::new();
        let mut j: usize = 0;
        while j < n
            invariant
                j <= n <= order@.len(),
                router_logits@.len() <= u32::MAX,
                keys@.len() == router_logits@.len(),
                is_ranking(keys@, order@),
                r@.len() == j,
                forall|a: int|
                    0 <= a < j ==> #[trigger] r@[a] == (ExpertId {
                        layer,
                        expert: order@[a] as u32,
                    }),
            decreases n - j,
        {
            assert(0 <= order@[j as int] < keys@.len());
            r.push(ExpertId { layer, expert: order[j] as u32 });
            j = j + 1;
        }
        proof {
            assert(keys.len() == keys@.len());
            ranking_is_a_permutation(keys@, order@);
            assert forall|a: int| 0 <= a < r@.len() implies 0 <= #[trigger] order@[a] < keys@.len()
                && r@[a].expert == order@[a] by {
                assert(r@[a].layer == layer);
            }
            assert forall|a: int, b: int| 0 <= a < b < r@.len() implies (#[trigger] r@[a]).expert
                != (#[trigger] r@[b]).expert && !float_lt(
                router_logits@[r@[a].expert as int],
                router_logits@[r@[b].expert as int],
            ) by {
                assert(0 <= order@[a] < keys@.len() && 0 <= order@[b] < keys@.len());
                assert(order@[a] != order@[b]);
                ranking_descends(keys@, order@, a, b);
                assert(keys@[order@[a] as int] == rank(router_logits@[order@[a] as int]));
                assert(keys@[order@[b] as int] == rank(router_logits@[order@[b] as int]));
            }
            assert forall|a: int, x: int|
                0 <= a < r@.len() && 0 <= x < router_logits@.len() && (forall|b: int|
                    0 <= b < r@.len() ==> (#[trigger] r@[b]).expert != x) implies !float_lt(
                router_logits@[(#[trigger] r@[a]).expert as int],
                #[trigger] router_logits@[x],
            ) by {
                assert(order@.contains(x as usize));
                let b = choose|b: int| 0 <= b < order@.len() && order@[b] == x as usize;
                if b < r@.len() {
                    assert(r@[b].expert == x);
                }
                assert(0 <= order@[a] < keys@.len());
                ranking_descends(keys@, order@, a, b);
                assert(keys@[order@[a] as int] == rank(router_logits@[order@[a] as int]));
                assert(keys@[x] == rank(router_logits@[x]));
            }
        }
        r
    }
}

// ─── Decoded experts ─────────────────────────────────────────────────────────

/// The three matrices of an expert, as bit patterns of single-precision numbers.
pub struct ExpertWeightTriple {
    pub gate: Vec<u32>,
    pub up: Vec<u32>,
    pub down: Vec<u32>,
}

impl ExpertWeightTriple {
    /// The two triples hold the same numbers.
    pub open spec fn same_as(&self, other: ExpertWeightTriple) -> bool {
        self.gate@ == other.gate@ && self.up@ == other.up@ && self.down@ == other.down@
    }

    /// A copy of the triple.
    pub fn copy(&self) -> (t: ExpertWeightTriple)
        ensures
            t.same_as(*self),
    {
        let gate = crate::speculation::copy_range(&self.gate, 0, self.gate.len());
        let up = crate::speculation::copy_range(&self.up, 0, self.up.len());
        let down = crate::speculation::copy_range(&self.down, 0, self.down.len());
        assert(gate@ =~= self.gate@ && up@ =~= self.up@ && down@ =~= self.down@);
        ExpertWeightTriple { gate, up, down }
    }
}

/// The format in which the experts of a tensor are unpacked.
pub open spec fn expert_format(dtype: TensorDtype) -> QuantFormat {
    match dtype {
        TensorDtype::F32 => QuantFormat::F32,
        TensorDtype::F16 | TensorDtype::BF16 => QuantFormat::F16,
        TensorDtype::Q5_0 | TensorDtype::Q5_1 => QuantFormat::Q5_0,
        TensorDtype::Q8_0 => QuantFormat::Q8_0,
        TensorDtype::Q8_1 => QuantFormat::Q8_1,
        TensorDtype::Q4K => QuantFormat::Q4KMedium,
        TensorDtype::Q5K => QuantFormat::Q5KMedium,
        TensorDtype::Q6K => QuantFormat::Q6K,
        _ => QuantFormat::F32,
    }
}

/// The format in which the experts of a tensor are unpacked.
pub fn tensor_dtype_to_quant(dtype: TensorDtype) -> (f: QuantFormat)
    ensures
        f == expert_format(dtype),
{
    match dtype {
        TensorDtype::F32 => QuantFormat::F32,
        TensorDtype::F16 => QuantFormat::F16,
        TensorDtype::BF16 => QuantFormat::F16,
        TensorDtype::Q5_0 => QuantFormat::Q5_0,
        TensorDtype::Q5_1 => QuantFormat::Q5_0,
        TensorDtype::Q8_0 => QuantFormat::Q8_0,
        TensorDtype::Q8_1 => QuantFormat::Q8_1,
        TensorDtype::Q4K => QuantFormat::Q4KMedium,
        TensorDtype::Q5K => QuantFormat::Q5KMedium,
        TensorDtype::Q6K => QuantFormat::Q6K,
        _ => QuantFormat::F32,
    }
}

/// The bytes of one expert of `elements` elements, in whole blocks.
pub open spec fn expert_bytes(elements: nat, per_block: nat, block_bytes: nat) -> nat {
    (elements + per_block - 1) as nat / per_block * block_bytes
}

/// Where expert `expert` stands in a tensor of `available` bytes in which
/// experts of `rows × cols` elements follow each other, in blocks of `per_block`
/// elements and `block_bytes` bytes; nothing where the tensor ends before it
/// does.
pub fn expert_byte_range(
    available: usize,
    expert: usize,
    rows: usize,
    cols: usize,
    per_block: usize,
    block_bytes: usize,
) -> (r: Option<(usize, usize)>)
    requires
        per_block > 0,
        rows * cols + per_block <= usize::MAX,
        expert_bytes((rows * cols) as nat, per_block as nat, block_bytes as nat) <= usize::MAX,
        (expert + 1) * expert_bytes((rows * cols) as nat, per_block as nat, block_bytes as nat)
            <= usize::MAX,
    ensures
        ({
            let size = expert_bytes((rows * cols) as nat, per_block as nat, block_bytes as nat);
            match r {
                Some((start, end)) => end <= available && start == expert * size && end == start
                    + size,
                None => (expert + 1) * size > available,
            }
        }),
{
    let elements: usize = rows * cols;
    let blocks: usize = (elements + (per_block - 1)) / per_block;
    let ghost size_n = expert_bytes(elements as nat, per_block as nat, block_bytes as nat);
    assert(blocks * block_bytes == size_n);
    let size: usize = blocks * block_bytes;
    proof {
        assert((expert + 1) * size == expert * size + size) by (nonlinear_arith);
        assert(0 <= expert * size) by (nonlinear_arith)
            requires
                0 <= expert,
                0 <= size,
        ;
    }
    let start: usize = expert * size;
    let end: usize = start + size;
    if end > available {
        None
    } else {
        Some((start, end))
    }
}

/// An expert of a layer, counted from zero.
#[derive(Clone, Copy, Debug, PartialEq, Eq, Structural)]
pub struct ExpertKey {
    pub layer: usize,
    pub expert: usize,
}

impl Key for ExpertKey {
    fn same_key(&self, other: &ExpertKey) -> (b: bool) {
        *self == *other
    }
}

/// Decoded experts as a mathematical value. The front of the list was used last.
pub struct DecodedModel {
    pub entries: Map<ExpertKey, ExpertWeightTriple>,
    pub lru: Seq<ExpertKey>,
}

impl DecodedModel {
    /// Experts leave, least recently used first, until there are fewer than
    /// `capacity`.
    pub open spec fn shrunk(self, capacity: nat) -> DecodedModel
        decreases self.lru.len(),
    {
        if self.entries.len() < capacity || self.lru.len() == 0 {
            self
        } else {
            (DecodedModel {
                entries: self.entries.remove(self.lru.last()),
                lru: self.lru.drop_last(),
            }).shrunk(capacity)
        }
    }

    /// An expert enters.
    pub open spec fn inserted(
        self,
        key: ExpertKey,
        triple: ExpertWeightTriple,
        capacity: nat,
    ) -> DecodedModel {
        let m = self.shrunk(capacity);
        DecodedModel { entries: m.entries.insert(key, triple), lru: seq![key] + m.lru }
    }
}

/// The experts that were decoded last.
pub struct ExpertWeightCache {
    pub entries: KeyedMap<ExpertKey, ExpertWeightTriple>,
    pub lru: VecDeque<ExpertKey>,
    pub capacity: usize,
    pub hits: u64,
    pub misses: u64,
}

impl ExpertWeightCache {
    pub open spec fn model(&self) -> DecodedModel {
        DecodedModel { entries: self.entries@, lru: self.lru@ }
    }

    /// There are at most as many experts as there is room for, and every one of
    /// them is in the list.
    pub open spec fn wf(&self) -> bool {
        &&& self.entries.wf()
        &&& self.capacity >= 1
        &&& self.entries.entries@.len() <= self.capacity
        &&& forall|k: ExpertKey| #[trigger]
            self.entries@.contains_key(k) ==> self.lru@.contains(k)
    }

    /// Room for `capacity` experts, but at least one.
    pub fn new(capacity: usize) -> (c: ExpertWeightCache)
        ensures
            c.wf(),
            c.capacity == if capacity == 0 {
                1
            } else {
                capacity
            },
            c.model() == (DecodedModel { entries: Map::empty(), lru: Seq::empty() }),
            c.hits == 0,
            c.misses == 0,
    {
        ExpertWeightCache {
            entries: KeyedMap::new(),
            lru: VecDeque::new(),
            capacity: if capacity == 0 {
                1
            } else {
                capacity
            },
            hits: 0,
            misses: 0,
        }
    }

    /// A copy of a decoded expert, which counts as used last from now on.
    pub fn get_clone(&mut self, layer: usize, expert: usize) -> (r: Option<ExpertWeightTriple>)
        requires
            old(self).wf(),
            old(self).hits < u64::MAX,
            old(self).misses < u64::MAX,
        ensures
            final(self).wf(),
            final(self).capacity == old(self).capacity,
            final(self).entries == old(self).entries,
            ({
                let key = ExpertKey { layer, expert };
                match r {
                    Some(t) => {
                        &&& old(self).entries@.contains_key(key)
                        &&& t.same_as(old(self).entries@[key])
                        &&& final(self).lru@ == seq![key] + without(old(self).lru@, key)
                        &&& final(self).hits == old(self).hits + 1
                        &&& final(self).misses == old(self).misses
                    },
                    None => {
                        &&& !old(self).entries@.contains_key(key)
                        &&& final(self).lru == old(self).lru
                        &&& final(self).hits == old(self).hits
                        &&& final(self).misses == old(self).misses + 1
                    },
                }
            }),
    {
        let key = ExpertKey { layer, expert };
        let ghost before = *self;
        match self.entries.get(&key) {
            Some(t) => {
                let copy = t.copy();
                let mut kept = drop_key(&self.lru, key);
                kept.push_front(key);
                self.lru = kept;
                self.hits = self.hits + 1;
                proof {
                    assert forall|k: ExpertKey| #[trigger]
                        self.entries@.contains_key(k) implies self.lru@.contains(k) by {
                        assert(before.lru@.contains(k));
                        if k == key {
                            assert(self.lru@[0] == k);
                        } else {
                            without_keeps_others(before.lru@, key, k);
                            let w = without(before.lru@, key);
                            let j = choose|j: int| 0 <= j < w.len() && w[j] == k;
                            assert(self.lru@[j + 1] == k);
                        }
                    }
                }
                Some(copy)
            },
            None => {
                self.misses = self.misses + 1;
                None
            },
        }
    }

    /// Takes a decoded expert in, after those used least recently have made room
    /// for it.
    pub fn insert(&mut self, layer: usize, expert: usize, triple: ExpertWeightTriple)
        requires
            old(self).wf(),
        ensures
            final(self).wf(),
            final(self).capacity == old(self).capacity,
            final(self).hits == old(self).hits,
            final(self).misses == old(self).misses,
            final(self).model() == old(self).model().inserted(
                ExpertKey { layer, expert },
                triple,
                old(self).capacity as nat,
            ),
    {
        let key = ExpertKey { layer, expert };
        let ghost start = *self;
        let ghost goal = self.model().shrunk(self.capacity as nat);
        while self.entries.len() >= self.capacity
            invariant
                self.wf(),
                self.capacity == start.capacity,
                self.hits == start.hits,
                self.misses == start.misses,
                goal == self.model().shrunk(self.capacity as nat),
            decreases self.lru@.len(),
        {
            let ghost before = *self;
            proof {
                self.entries.view_len();
                self.entries.entry_in_view(0);
                assert(self.lru@.contains(self.entries.entries@[0].0));
            }
            match self.lru.pop_back() {
                Some(evict) => {
                    assert(self.lru@ =~= before.lru@.drop_last());
                    let _ = self.entries.remove(&evict);
                    proof {
                        assert forall|k: ExpertKey| #[trigger]
                            self.entries@.contains_key(k) implies self.lru@.contains(k) by {
                            assert(before.lru@.contains(k));
                            let j = choose|j: int| 0 <= j < before.lru@.len() && before.lru@[j]
                                == k;
                            assert(self.lru@[j] == k);
                        }
                    }
                },
                None => {},
            }
        }
        proof {
            self.entries.view_len();
        }
        let ghost mid = *self;
        self.lru.push_front(key);
        self.entries.insert(key, triple);
        proof {
            assert(self.entries.keys().len() == self.entries.entries@.len());
            assert(mid.entries.keys().len() == mid.entries.entries@.len());
            assert forall|k: ExpertKey| #[trigger] self.entries@.contains_key(
                k,
            ) implies self.lru@.contains(k) by {
                if k == key {
                    assert(self.lru@[0] == k);
                } else {
                    assert(mid.entries@.contains_key(k));
                    let j = choose|j: int| 0 <= j < mid.lru@.len() && mid.lru@[j] == k;
                    assert(self.lru@[j + 1] == k);
                }
            }
        }
    }
}

// ─── What the caches keep ────────────────────────────────────────────────────

/// An expert is counted as often as it was activated.
pub proof fn activations_are_counted(activated: Seq<ExpertId>, id: ExpertId)
    ensures
        activations(activated, id) == activated.to_multiset().count(id),
    decreases activated.len(),
{
    broadcast use vstd::multiset::group_multiset_axioms;
    broadcast use vstd::seq_lib::group_to_multiset_ensures;

    if activated.len() > 0 {
        activations_are_counted(activated.drop_last(), id);
        assert(activated =~= activated.drop_last().push(activated.last()));
    }
}

/// Room is made by dropping the blocks that were used longest ago, and no more of them
/// than it takes: the result is how many are kept. A block that is still listed as kept is
/// still there, a block that was dropped is not, and one more would not have fitted.
pub proof fn oldest_blocks_make_room(m: CacheModel, size: int, ram_capacity: int) -> (kept: int)
    requires
        m.lru.no_duplicates(),
    ensures
        ({
            let after = m.making_room(size, ram_capacity);
            &&& 0 <= kept <= m.lru.len()
            &&& after.lru == m.lru.take(kept)
            &&& after.vram == m.vram
            &&& after.vram_used == m.vram_used
            &&& forall|id: ExpertId| #[trigger]
                after.ram.contains_key(id) <==> m.ram.contains_key(id) && !m.lru.skip(
                    kept,
                ).contains(id)
            &&& forall|id: ExpertId| #[trigger]
                after.ram.contains_key(id) ==> after.ram[id] == m.ram[id]
            &&& kept > 0 ==> after.ram_used + size <= ram_capacity
            &&& kept == m.lru.len() ==> after == m
            &&& kept < m.lru.len() ==> after.ram_used + size + (if m.ram.contains_key(
                m.lru[kept],
            ) {
                m.ram[m.lru[kept]].data@.len() as int
            } else {
                0
            }) > ram_capacity
        }),
    decreases m.lru.len(),
{
    if m.ram_used + size <= ram_capacity || m.lru.len() == 0 {
        let kept = m.lru.len() as int;
        assert(m.lru.take(kept) =~= m.lru);
        assert(m.lru.skip(kept).len() == 0);
        kept
    } else {
        let id = m.lru.last();
        let one = CacheModel {
            lru: m.lru.drop_last(),
            ram: m.ram.remove(id),
            ram_used: if m.ram.contains_key(id) {
                m.ram_used - m.ram[id].data@.len()
            } else {
                m.ram_used
            },
            ..m
        };
        let kept = oldest_blocks_make_room(one, size, ram_capacity);
        let (short, long) = (one.lru.skip(kept), m.lru.skip(kept));
        assert(one.lru.take(kept) =~= m.lru.take(kept));
        assert(long =~= short.push(id));
        assert forall|x: ExpertId| #[trigger] long.contains(x) <==> short.contains(x) || x == id by {
            if short.contains(x) {
                let k = choose|k: int| 0 <= k < short.len() && short[k] == x;
                assert(long[k] == x);
            }
            if x == id {
                assert(long[long.len() - 1] == x);
            }
        }
        if kept < one.lru.len() {
            assert(one.lru[kept] == m.lru[kept]);
            assert(m.lru[kept] != id);
        }
        kept
    }
}

/// A block that is demoted leaves the graphics memory and is found in the main memory
/// afterwards.
pub proof fn demotion_moves_the_block(m: CacheModel, id: ExpertId, ram_capacity: int)
    requires
        m.vram.contains_key(id),
        m.vram[id].id == id,
    ensures
        ({
            let after = m.demoted(id, ram_capacity);
            &&& !after.vram.contains_key(id)
            &&& after.ram.contains_key(id)
            &&& after.ram[id] == m.vram[id]
            &&& after.vram_used == m.vram_used - m.vram[id].data@.len()
            &&& after.lru[0] == id
            &&& forall|x: ExpertId|
                x != id ==> #[trigger] after.vram.contains_key(x) == m.vram.contains_key(x)
                    && after.vram[x] == m.vram[x]
        }),
{
    let out = CacheModel {
        vram: m.vram.remove(id),
        vram_used: m.vram_used - m.vram[id].data@.len(),
        ..m
    };
    inserted_block_is_found(out, m.vram[id], ram_capacity);
    making_room_keeps_vram(out, m.vram[id].data@.len() as int, ram_capacity);
}

/// The bytes of all blocks.
pub open spec fn bytes_of_blocks(blocks: Seq<WeightBlock>) -> int
    decreases blocks.len(),
{
    if blocks.len() == 0 {
        0
    } else {
        bytes_of_blocks(blocks.drop_last()) + blocks.last().data@.len()
    }
}

/// To promote blocks takes nothing out of either memory. Nothing but the blocks comes in,
/// and where they fit together they all do.
pub proof fn promotion_brings_blocks_in(
    m: CacheModel,
    blocks: Seq<WeightBlock>,
    vram_capacity: int,
)
    ensures
        ({
            let after = m.promoted(blocks, vram_capacity);
            &&& after.ram == m.ram
            &&& after.lru == m.lru
            &&& after.ram_used == m.ram_used
            &&& m.vram_used <= vram_capacity ==> after.vram_used <= vram_capacity
            &&& after.vram_used <= m.vram_used + bytes_of_blocks(blocks)
            &&& forall|id: ExpertId| #[trigger]
                m.vram.contains_key(id) ==> after.vram.contains_key(id)
            &&& forall|id: ExpertId| #[trigger]
                after.vram.contains_key(id) ==> m.vram.contains_key(id) || exists|k: int|
                    0 <= k < blocks.len() && (#[trigger] blocks[k]).id == id
            &&& m.vram_used + bytes_of_blocks(blocks) <= vram_capacity ==> after.vram_used
                == m.vram_used + bytes_of_blocks(blocks) && forall|k: int|
                0 <= k < blocks.len() ==> after.vram.contains_key((#[trigger] blocks[k]).id)
        }),
    decreases blocks.len(),
{
    if blocks.len() > 0 {
        let less = blocks.drop_last();
        promotion_brings_blocks_in(m, less, vram_capacity);
        let before = m.promoted(less, vram_capacity);
        let after = m.promoted(blocks, vram_capacity);
        assert forall|id: ExpertId| #[trigger] after.vram.contains_key(id) implies m.vram.contains_key(
            id,
        ) || exists|k: int| 0 <= k < blocks.len() && (#[trigger] blocks[k]).id == id by {
            if before.vram.contains_key(id) {
                if !m.vram.contains_key(id) {
                    let k = choose|k: int| 0 <= k < less.len() && (#[trigger] less[k]).id == id;
                    assert(blocks[k].id == id);
                }
            } else {
                assert(blocks[blocks.len() - 1].id == id);
            }
        }
        if m.vram_used + bytes_of_blocks(blocks) <= vram_capacity {
            assert forall|k: int| 0 <= k < blocks.len() implies after.vram.contains_key(
                (#[trigger] blocks[k]).id,
            ) by {
                if k < less.len() {
                    assert(less[k] == blocks[k]);
                }
            }
        }
    }
}

/// A block that is used moves to the front, and the others keep their order.
pub proof fn used_block_moves_to_the_front(m: CacheModel, id: ExpertId)
    ensures
        m.touched(id).lru == seq![id] + m.lru.filter(|x: ExpertId| x != id),
        m.touched(id).ram == m.ram,
        m.touched(id).vram == m.vram,
        m.touched(id).ram_used == m.ram_used,
        m.touched(id).vram_used == m.vram_used,
    decreases m.lru.len(),
{
    reveal(Seq::filter);
    let others = |x: ExpertId| x != id;
    if m.lru.len() > 0 {
        let less = CacheModel { lru: m.lru.drop_last(), ..m };
        used_block_moves_to_the_front(less, id);
        assert(without(less.lru, id) =~= less.touched(id).lru.skip(1));
        assert(less.lru.filter(others) =~= less.touched(id).lru.skip(1));
    }
    assert(m.touched(id).lru =~= seq![id] + m.lru.filter(others));
}

/// The blocks to promote are those of the listed experts that are in memory, in the order
/// of the list.
pub proof fn listed_blocks_are_taken(ram: Map<ExpertId, WeightBlock>, ids: Seq<(ExpertId, u64)>)
    ensures
        blocks_in(ram, ids) == ids.filter(|e: (ExpertId, u64)| ram.contains_key(e.0)).map_values(
            |e: (ExpertId, u64)| ram[e.0]@,
        ),
    decreases ids.len(),
{
    reveal(Seq::filter);
    let here = |e: (ExpertId, u64)| ram.contains_key(e.0);
    let block = |e: (ExpertId, u64)| ram[e.0]@;
    if ids.len() > 0 {
        listed_blocks_are_taken(ram, ids.drop_last());
    }
    assert(blocks_in(ram, ids) =~= ids.filter(here).map_values(block));
}

/// A block that is not compressed is read as it stands; one that is compressed is read only
/// if it has the size that the index gives.
pub proof fn blocks_are_read_whole(id: ExpertId, entry: ExpertDiskEntry, bytes: Seq<u8>)
    ensures
        !entry.is_compressed ==> decoded(id, entry, bytes) is Ok && decoded(
            id,
            entry,
            bytes,
        )->Ok_0.data == bytes,
        entry.is_compressed && decoded(id, entry, bytes) is Ok ==> {
            let data = decoded(id, entry, bytes)->Ok_0.data;
            inflated(bytes) == Ok::<Seq<u8>, Seq<char>>(data) && data.len()
                == entry.raw_bytes as usize
        },
        entry.is_compressed && inflated(bytes) is Ok && inflated(bytes)->Ok_0.len()
            == entry.raw_bytes as usize ==> decoded(id, entry, bytes) is Ok,
        decoded(id, entry, bytes) is Ok ==> {
            let b = decoded(id, entry, bytes)->Ok_0;
            b.id == id && b.quant == entry.quant && b.rows == entry.rows && b.cols == entry.cols
        },
{
}

/// An expert takes up as few whole blocks as hold its elements.
pub proof fn experts_fill_whole_blocks(elements: nat, per_block: nat, block_bytes: nat, n: nat)
    requires
        per_block > 0,
        elements <= n * per_block,
        n == 0 || (n - 1) * per_block < elements,
    ensures
        expert_bytes(elements, per_block, block_bytes) == n * block_bytes,
{
    let up = elements + per_block - 1;
    assert((n + 1) * per_block == n * per_block + per_block) by (nonlinear_arith);
    if n > 0 {
        assert((n - 1) * per_block == n * per_block - per_block) by (nonlinear_arith);
    } else {
        assert(0 * per_block == 0);
    }
    vstd::arithmetic::div_mod::lemma_fundamental_div_mod_converse(
        up as int,
        per_block as int,
        n as int,
        up - n * per_block,
    );
}

/// The decoded experts are dropped from the one that was used longest ago on, and no more
/// of them than it takes. The result is how many keep their place.
pub proof fn oldest_decoded_are_dropped(m: DecodedModel, capacity: nat) -> (kept: int)
    requires
        m.lru.no_duplicates(),
        m.entries.dom().finite(),
    ensures
        ({
            let after = m.shrunk(capacity);
            &&& 0 <= kept <= m.lru.len()
            &&& after.lru == m.lru.take(kept)
            &&& forall|k: ExpertKey| #[trigger]
                after.entries.contains_key(k) <==> m.entries.contains_key(k) && !m.lru.skip(
                    kept,
                ).contains(k)
            &&& forall|k: ExpertKey| #[trigger]
                after.entries.contains_key(k) ==> after.entries[k] == m.entries[k]
            &&& kept > 0 ==> after.entries.len() < capacity
            &&& kept < m.lru.len() ==> after.entries.len() + 1 >= capacity
        }),
    decreases m.lru.len(),
{
    if m.entries.len() < capacity || m.lru.len() == 0 {
        let kept = m.lru.len() as int;
        assert(m.lru.take(kept) =~= m.lru);
        assert(m.lru.skip(kept).len() == 0);
        kept
    } else {
        let id = m.lru.last();
        let one = DecodedModel { entries: m.entries.remove(id), lru: m.lru.drop_last() };
        let kept = oldest_decoded_are_dropped(one, capacity);
        let (short, long) = (one.lru.skip(kept), m.lru.skip(kept));
        assert(one.lru.take(kept) =~= m.lru.take(kept));
        assert(long =~= short.push(id));
        assert forall|x: ExpertKey| #[trigger] long.contains(x) <==> short.contains(x) || x
            == id by {
            if short.contains(x) {
                let k = choose|k: int| 0 <= k < short.len() && short[k] == x;
                assert(long[k] == x);
            }
            if x == id {
                assert(long[long.len() - 1] == x);
            }
        }
        if kept == one.lru.len() {
            assert(one.shrunk(capacity).lru =~= one.lru);
            if !(one.entries.len() < capacity || one.lru.len() == 0) {
                shrinking_drops_something(one, capacity);
            }
        }
        kept
    }
}

proof fn shrinking_drops_something(m: DecodedModel, capacity: nat)
    ensures
        m.shrunk(capacity).lru.len() <= m.lru.len(),
        m.entries.len() >= capacity && m.lru.len() > 0 ==> m.shrunk(capacity).lru.len()
            < m.lru.len(),
    decreases m.lru.len(),
{
    if !(m.entries.len() < capacity || m.lru.len() == 0) {
        shrinking_drops_something(
            DecodedModel {
                entries: m.entries.remove(m.lru.last()),
                lru: m.lru.drop_last(),
            },
            capacity,
        );
    }
}

/// A decoded expert that is kept is found, and stands first.
pub proof fn inserted_expert_is_found(
    m: DecodedModel,
    key: ExpertKey,
    triple: ExpertWeightTriple,
    capacity: nat,
)
    ensures
        m.inserted(key, triple, capacity).entries.contains_key(key),
        m.inserted(key, triple, capacity).entries[key] == triple,
        m.inserted(key, triple, capacity).lru.len() > 0,
        m.inserted(key, triple, capacity).lru[0] == key,
{
}

/// A block that is put in is found afterwards, in the one memory or the other.
pub proof fn taken_block_is_found(c: ExpertCache, block: WeightBlock, after: CacheModel)
    requires
        c.takes(block, after),
    ensures
        (after.vram.contains_key(block.id) && after.vram[block.id] == block) || (
        after.ram.contains_key(block.id) && after.ram[block.id] == block),
        !c.frequency.hot(block.id) ==> after.ram.contains_key(block.id) && after.ram[block.id]
            == block && after.vram == c.vram@,
{
    let m = c.model();
    let ram = c.ram_capacity as int;
    if c.frequency.hot(block.id) && block.data@.len() <= c.vram_capacity {
        let gone = choose|gone: Seq<ExpertId>|
            {
                &&& #[trigger] c.make_way(m, gone, block)
                &&& if c.fits(m.all_demoted(gone, ram), block) {
                    after == m.all_demoted(gone, ram).with_vram(block)
                } else {
                    &&& forall|v: ExpertId| #[trigger]
                        coldest_of(m.all_demoted(gone, ram).vram, c.frequency, v) ==> !c.colder(
                            v,
                            block.id,
                        )
                    &&& after == m.all_demoted(gone, ram).with_ram(block, ram)
                }
            };
        inserted_block_is_found(m.all_demoted(gone, ram), block, ram);
    } else {
        inserted_block_is_found(m, block, ram);
    }
}

/// Only blocks that are colder than the new one make way for it: every other block stays in
/// graphics memory.
pub proof fn warmer_blocks_stay(
    c: ExpertCache,
    block: WeightBlock,
    after: CacheModel,
    id: ExpertId,
)
    requires
        c.takes(block, after),
        c.vram@.contains_key(id),
        id != block.id,
        c.frequency.activated(id) >= c.frequency.activated(block.id),
    ensures
        after.vram.contains_key(id),
        after.vram[id] == c.vram@[id],
{
    let m = c.model();
    let ram = c.ram_capacity as int;
    if c.frequency.hot(block.id) && block.data@.len() <= c.vram_capacity {
        let gone = choose|gone: Seq<ExpertId>|
            {
                &&& #[trigger] c.make_way(m, gone, block)
                &&& if c.fits(m.all_demoted(gone, ram), block) {
                    after == m.all_demoted(gone, ram).with_vram(block)
                } else {
                    &&& forall|v: ExpertId| #[trigger]
                        coldest_of(m.all_demoted(gone, ram).vram, c.frequency, v) ==> !c.colder(
                            v,
                            block.id,
                        )
                    &&& after == m.all_demoted(gone, ram).with_ram(block, ram)
                }
            };
        only_colder_blocks_go(c, m, gone, block, id);
        making_room_keeps_vram(m.all_demoted(gone, ram), block.data@.len() as int, ram);
    } else {
        making_room_keeps_vram(m, block.data@.len() as int, ram);
    }
}

proof fn only_colder_blocks_go(
    c: ExpertCache,
    m: CacheModel,
    gone: Seq<ExpertId>,
    block: WeightBlock,
    id: ExpertId,
)
    requires
        c.make_way(m, gone, block),
        m.vram.contains_key(id),
        c.frequency.activated(id) >= c.frequency.activated(block.id),
    ensures
        m.all_demoted(gone, c.ram_capacity as int).vram.contains_key(id),
        m.all_demoted(gone, c.ram_capacity as int).vram[id] == m.vram[id],
    decreases gone.len(),
{
    if gone.len() > 0 {
        let ram = c.ram_capacity as int;
        only_colder_blocks_go(c, m, gone.drop_last(), block, id);
        let before = m.all_demoted(gone.drop_last(), ram);
        let v = gone.last();
        assert(c.colder(v, block.id));
        let out = CacheModel {
            vram: before.vram.remove(v),
            vram_used: before.vram_used - before.vram[v].data@.len(),
            ..before
        };
        making_room_keeps_vram(out, before.vram[v].data@.len() as int, ram);
    }
}

/// An expert is decoded in the format in which the same numbers are decoded everywhere
/// else, wherever there is one.
pub proof fn experts_have_the_usual_formats(dtype: TensorDtype)
    ensures
        match crate::weight_store::quant_format(dtype) {
            Some(f) => expert_format(dtype) == f,
            None => true,
        },
{
}

} // verus!
