//! Experts spread over several disks: which disk holds which expert, what to
//! read for a token, and what to do with what was read.

use vstd::prelude::*;

use crate::errors::NodeStorError;
use crate::keyed_map::KeyedMap;
use crate::ssd_stream::{
    inflate, inflated, push_expert, BlockModel, CacheModel, ExpertCache, ExpertDiskEntry, ExpertId,
    WeightBlock,
};
use crate::text::{dec, push_dec};

verus! {

/// Takes decompressed bytes where there are `expected` of them.
pub fn check_size(result: Result<Vec<u8>, String>, expected: usize) -> (r: Result<
    Vec<u8>,
    NodeStorError,
>)
    ensures
        match (result, r) {
            (Ok(v), Ok(w)) => v@.len() == expected && w == v,
            (Ok(v), Err(e)) => v@.len() != expected && e is InferenceError && e.text()
                == "gdeflate size mismatch: got "@ + dec(v@.len()) + " expected "@ + dec(
                expected as nat,
            ),
            (Err(m), Err(e)) => e is InferenceError && e.text() == "gdeflate: "@ + m@,
            _ => false,
        },
{
    match result {
        Ok(v) => {
            if v.len() != expected {
                let mut m = "gdeflate size mismatch: got ".to_string();
                push_dec(&mut m, v.len() as u64);
                m.append(" expected ");
                push_dec(&mut m, expected as u64);
                return Err(NodeStorError::InferenceError(m));
            }
            Ok(v)
        },
        Err(t) => {
            let mut m = "gdeflate: ".to_string();
            m.append(t.as_str());
            Err(NodeStorError::InferenceError(m))
        },
    }
}

/// The bytes of a deflate stream, where there are `expected` of them.
pub fn decompress_gdeflate(compressed: &[u8], expected: usize) -> (r: Result<
    Vec<u8>,
    NodeStorError,
>)
    ensures
        match (inflated(compressed@), r) {
            (Ok(v), Ok(w)) => v.len() == expected && w@ == v,
            (Ok(v), Err(e)) => v.len() != expected && e is InferenceError && e.text()
                == "gdeflate size mismatch: got "@ + dec(v.len()) + " expected "@ + dec(
                expected as nat,
            ),
            (Err(t), Err(e)) => e is InferenceError && e.text() == "gdeflate: "@ + t,
            _ => false,
        },
{
    check_size(inflate(compressed), expected)
}

/// The block that bytes read from a disk hold.
pub open spec fn block_of(id: ExpertId, entry: ExpertDiskEntry, bytes: Seq<u8>) -> Result<
    BlockModel,
    Seq<char>,
> {
    let block = |data: Seq<u8>|
        BlockModel { id, data, quant: entry.quant, rows: entry.rows, cols: entry.cols };
    if !entry.is_compressed {
        Ok(block(bytes))
    } else {
        match inflated(bytes) {
            Err(t) => Err("gdeflate: "@ + t),
            Ok(v) => if v.len() == entry.raw_bytes as usize {
                Ok(block(v))
            } else {
                Err(
                    "gdeflate size mismatch: got "@ + dec(v.len()) + " expected "@ + dec(
                        (entry.raw_bytes as usize) as nat,
                    ),
                )
            },
        }
    }
}

/// The block that `buf`, the bytes read for `entry`, holds.
pub fn read_block(id: ExpertId, entry: ExpertDiskEntry, buf: Vec<u8>) -> (r: Result<
    WeightBlock,
    NodeStorError,
>)
    ensures
        match (r, block_of(id, entry, buf@)) {
            (Ok(b), Ok(m)) => b@ == m,
            (Err(e), Err(t)) => e is InferenceError && e.text() == t,
            _ => false,
        },
{
    let data = if entry.is_compressed {
        match decompress_gdeflate(buf.as_slice(), entry.raw_bytes as usize) {
            Ok(v) => v,
            Err(e) => {
                return Err(e);
            },
        }
    } else {
        buf
    };
    Ok(WeightBlock { id, data, quant: entry.quant, rows: entry.rows, cols: entry.cols })
}

/// The disks and what they hold.
pub struct StripeConfig {
    /// One file per disk.
    pub shard_paths: Vec<String>,
    /// What each file holds.
    pub shard_indices: Vec<KeyedMap<ExpertId, ExpertDiskEntry>>,
    pub cache: ExpertCache,
    /// Whether disks are read in parallel.
    pub parallel: bool,
}

/// The disk of an expert, among `n`.
pub open spec fn shard_of(id: ExpertId, n: nat) -> int {
    (id.layer as u64).wrapping_mul(1000003).wrapping_add(id.expert as u64) as int % (n as int)
}

/// The experts of `experts` that are in neither tier of the cache.
pub open spec fn missing(m: CacheModel, experts: Seq<ExpertId>) -> Seq<ExpertId>
    decreases experts.len(),
{
    if experts.len() == 0 {
        Seq::empty()
    } else {
        let before = missing(m, experts.drop_last());
        let id = experts.last();
        if m.vram.contains_key(id) || m.ram.contains_key(id) {
            before
        } else {
            before.push(id)
        }
    }
}

/// The blocks of `experts` that are in a tier of the cache.
pub open spec fn cached(m: CacheModel, experts: Seq<ExpertId>) -> Seq<BlockModel>
    decreases experts.len(),
{
    if experts.len() == 0 {
        Seq::empty()
    } else {
        let before = cached(m, experts.drop_last());
        let id = experts.last();
        if m.vram.contains_key(id) {
            before.push(m.vram[id]@)
        } else if m.ram.contains_key(id) {
            before.push(m.ram[id]@)
        } else {
            before
        }
    }
}

/// How many of `experts` are in video memory, how many others in main memory, and
/// how many in neither.
pub open spec fn tallies(m: CacheModel, experts: Seq<ExpertId>) -> (int, int, int)
    decreases experts.len(),
{
    if experts.len() == 0 {
        (0, 0, 0)
    } else {
        let (v, r, s) = tallies(m, experts.drop_last());
        let id = experts.last();
        if m.vram.contains_key(id) {
            (v + 1, r, s)
        } else if m.ram.contains_key(id) {
            (v, r + 1, s)
        } else {
            (v, r, s + 1)
        }
    }
}

/// The cache after `experts` were looked up.
pub open spec fn looked_up(m: CacheModel, experts: Seq<ExpertId>) -> CacheModel
    decreases experts.len(),
{
    if experts.len() == 0 {
        m
    } else {
        let before = looked_up(m, experts.drop_last());
        let id = experts.last();
        if !m.vram.contains_key(id) && m.ram.contains_key(id) {
            before.touched(id)
        } else {
            before
        }
    }
}

proof fn looking_up_keeps_blocks(m: CacheModel, experts: Seq<ExpertId>)
    ensures
        looked_up(m, experts).vram == m.vram,
        looked_up(m, experts).ram == m.ram,
        looked_up(m, experts).vram_used == m.vram_used,
        looked_up(m, experts).ram_used == m.ram_used,
    decreases experts.len(),
{
    if experts.len() > 0 {
        looking_up_keeps_blocks(m, experts.drop_last());
    }
}

/// Every expert asked for is either served from the cache or missing.
pub proof fn hits_and_misses_cover_all(m: CacheModel, experts: Seq<ExpertId>)
    ensures
        cached(m, experts).len() + missing(m, experts).len() == experts.len(),
    decreases experts.len(),
{
    if experts.len() > 0 {
        hits_and_misses_cover_all(m, experts.drop_last());
    }
}

/// Experts on several disks behind one cache.
pub struct SsdStripe {
    pub shard_indices: Vec<KeyedMap<ExpertId, ExpertDiskEntry>>,
    pub cache: ExpertCache,
    pub parallel: bool,
    pub total_io_bytes: u64,
    pub tokens_served: u64,
    pub cache_hits: u64,
    pub ssd_reads: u64,
}

impl SsdStripe {
    pub open spec fn wf(&self) -> bool {
        &&& self.shard_indices@.len() > 0
        &&& forall|i: int|
            0 <= i < self.shard_indices@.len() ==> (#[trigger] self.shard_indices@[i]).wf()
        &&& self.cache.wf()
    }

    /// The disks of `cfg`; an error where paths and indices do not match or there
    /// is no disk.
    pub fn new(cfg: StripeConfig) -> (r: Result<SsdStripe, NodeStorError>)
        requires
            cfg.cache.wf(),
            forall|i: int|
                0 <= i < cfg.shard_indices@.len() ==> (#[trigger] cfg.shard_indices@[i]).wf(),
        ensures
            match r {
                Ok(s) => {
                    &&& cfg.shard_paths@.len() == cfg.shard_indices@.len()
                    &&& cfg.shard_paths@.len() > 0
                    &&& s.wf()
                    &&& s.shard_indices == cfg.shard_indices
                    &&& s.cache == cfg.cache
                    &&& s.parallel == cfg.parallel
                    &&& s.total_io_bytes == 0
                    &&& s.tokens_served == 0
                    &&& s.cache_hits == 0
                    &&& s.ssd_reads == 0
                },
                Err(e) => e is InferenceError && if cfg.shard_paths@.len()
                    != cfg.shard_indices@.len() {
                    e.text()
                        == "ssd_stripe: shard_paths and shard_indices must have the same length"@
                } else {
                    cfg.shard_paths@.len() == 0 && e.text()
                        == "ssd_stripe: at least one shard required"@
                },
            },
    {
        if cfg.shard_paths.len() != cfg.shard_indices.len() {
            return Err(
                NodeStorError::InferenceError(
                    "ssd_stripe: shard_paths and shard_indices must have the same length".to_string(),
                ),
            );
        }
        if cfg.shard_paths.len() == 0 {
            return Err(
                NodeStorError::InferenceError(
                    "ssd_stripe: at least one shard required".to_string(),
                ),
            );
        }
        Ok(
            SsdStripe {
                shard_indices: cfg.shard_indices,
                cache: cfg.cache,
                parallel: cfg.parallel,
                total_io_bytes: 0,
                tokens_served: 0,
                cache_hits: 0,
                ssd_reads: 0,
            },
        )
    }

    /// The disk of an expert. The same expert is always on the same disk.
    pub fn shard_for(&self, id: ExpertId) -> (i: usize)
        requires
            self.shard_indices@.len() > 0,
        ensures
            i == shard_of(id, self.shard_indices@.len()),
            i < self.shard_indices@.len(),
    {
        let key: u64 = (id.layer as u64).wrapping_mul(1000003).wrapping_add(id.expert as u64);
        let n: u64 = self.shard_indices.len() as u64;
        (key % n) as usize
    }

    /// Splits the experts of a token into blocks that are in the cache and
    /// experts that have to be read.
    pub fn split(&mut self, experts: &[ExpertId]) -> (r: (Vec<WeightBlock>, Vec<ExpertId>))
        requires
            old(self).wf(),
            old(self).cache.hits_vram + experts@.len() <= u64::MAX,
            old(self).cache.hits_ram + experts@.len() <= u64::MAX,
            old(self).cache.hits_ssd + experts@.len() <= u64::MAX,
            old(self).cache_hits + experts@.len() <= u64::MAX,
        ensures
            final(self).wf(),
            final(self).shard_indices == old(self).shard_indices,
            final(self).parallel == old(self).parallel,
            final(self).total_io_bytes == old(self).total_io_bytes,
            final(self).tokens_served == old(self).tokens_served,
            final(self).ssd_reads == old(self).ssd_reads,
            final(self).cache.frequency == old(self).cache.frequency,
            final(self).cache.vram_capacity == old(self).cache.vram_capacity,
            final(self).cache.ram_capacity == old(self).cache.ram_capacity,
            final(self).cache.model() == looked_up(old(self).cache.model(), experts@),
            crate::ssd_stream::block_views(r.0@) == cached(old(self).cache.model(), experts@),
            r.1@ == missing(old(self).cache.model(), experts@),
            final(self).cache_hits == old(self).cache_hits + r.0@.len(),
            ({
                let (v, r, s) = tallies(old(self).cache.model(), experts@);
                final(self).cache.counters() == (
                    old(self).cache.hits_vram + v,
                    old(self).cache.hits_ram + r,
                    old(self).cache.hits_ssd + s,
                )
            }),
    {
        let ghost start = *self;
        let ghost m = self.cache.model();
        let mut hits: Vec<WeightBlock> = Vec::new();
        let mut misses: Vec<ExpertId> = Vec::new();
        let mut i: usize = 0;
        assert(experts@.take(0) =~= Seq::<ExpertId>::empty());
        assert(crate::ssd_stream::block_views(hits@) =~= Seq::<BlockModel>::empty());
        while i < experts.len()
            invariant
                i <= experts@.len(),
                start.wf(),
                m == start.cache.model(),
                start.cache.hits_vram + experts@.len() <= u64::MAX,
                start.cache.hits_ram + experts@.len() <= u64::MAX,
                start.cache.hits_ssd + experts@.len() <= u64::MAX,
                start.cache_hits + experts@.len() <= u64::MAX,
                self.wf(),
                self.shard_indices == start.shard_indices,
                self.parallel == start.parallel,
                self.total_io_bytes == start.total_io_bytes,
                self.tokens_served == start.tokens_served,
                self.ssd_reads == start.ssd_reads,
                self.cache.frequency == start.cache.frequency,
                self.cache.vram_capacity == start.cache.vram_capacity,
                self.cache.ram_capacity == start.cache.ram_capacity,
                self.cache.hits_vram <= start.cache.hits_vram + i,
                self.cache.hits_ram <= start.cache.hits_ram + i,
                self.cache.hits_ssd <= start.cache.hits_ssd + i,
                self.cache.hits_vram == start.cache.hits_vram + tallies(m, experts@.take(i as int)).0,
                self.cache.hits_ram == start.cache.hits_ram + tallies(m, experts@.take(i as int)).1,
                self.cache.hits_ssd == start.cache.hits_ssd + tallies(m, experts@.take(i as int)).2,
                self.cache.model() == looked_up(m, experts@.take(i as int)),
                crate::ssd_stream::block_views(hits@) == cached(m, experts@.take(i as int)),
                misses@ == missing(m, experts@.take(i as int)),
                hits@.len() <= i,
                self.cache_hits == start.cache_hits + hits@.len(),
            decreases experts@.len() - i,
        {
            let id: ExpertId = experts[i];
            proof {
                let part = experts@.take(i as int);
                assert(experts@.take(i + 1).drop_last() =~= part);
                assert(experts@.take(i + 1).last() == id);
                looking_up_keeps_blocks(m, part);
                assert(self.cache.vram@ == m.vram && self.cache.ram@ == m.ram);
            }
            let ghost h0 = hits@;
            let found: Option<WeightBlock> = match self.cache.get(id) {
                Some((_tier, block)) => Some(block.copy()),
                None => None,
            };
            match found {
                Some(block) => {
                    let ghost b = block@;
                    hits.push(block);
                    self.cache_hits = self.cache_hits + 1;
                    assert(crate::ssd_stream::block_views(hits@)
                        =~= crate::ssd_stream::block_views(h0).push(b));
                },
                None => {
                    misses.push(id);
                },
            }
            i = i + 1;
        }
        assert(experts@.take(i as int) =~= experts@);
        (hits, misses)
    }

    /// The disk and the place of a missing expert; an error where its disk does
    /// not hold it.
    pub fn locate(&self, id: ExpertId) -> (r: Result<(usize, ExpertDiskEntry), NodeStorError>)
        requires
            self.wf(),
        ensures
            ({
                let s = shard_of(id, self.shard_indices@.len());
                let index = self.shard_indices@[s]@;
                match r {
                    Ok((i, e)) => i == s && index.contains_key(id) && e == index[id],
                    Err(e) => !index.contains_key(id) && e is InferenceError && e.text()
                        == "ssd_stripe: expert "@ + id.text() + if self.parallel {
                        " not found in any shard"@
                    } else {
                        " not found"@
                    },
                }
            }),
    {
        let i: usize = self.shard_for(id);
        match self.shard_indices[i].get(&id) {
            Some(e) => Ok((i, *e)),
            None => {
                let mut m = "ssd_stripe: expert ".to_string();
                push_expert(&mut m, id);
                if self.parallel {
                    m.append(" not found in any shard");
                } else {
                    m.append(" not found");
                }
                Err(NodeStorError::InferenceError(m))
            },
        }
    }

    /// Takes in a block that was read, and hands a copy of it on.
    pub fn absorb(&mut self, block: WeightBlock) -> (copy: WeightBlock)
        requires
            old(self).wf(),
            old(self).cache.has_room(block.data@.len()),
            old(self).total_io_bytes + block.data@.len() <= u64::MAX,
            old(self).ssd_reads < u64::MAX,
        ensures
            final(self).wf(),
            final(self).shard_indices == old(self).shard_indices,
            final(self).parallel == old(self).parallel,
            final(self).total_io_bytes == old(self).total_io_bytes + block.data@.len(),
            final(self).ssd_reads == old(self).ssd_reads + 1,
            final(self).tokens_served == old(self).tokens_served,
            final(self).cache_hits == old(self).cache_hits,
            final(self).cache.frequency == old(self).cache.frequency,
            final(self).cache.vram_capacity == old(self).cache.vram_capacity,
            final(self).cache.ram_capacity == old(self).cache.ram_capacity,
            final(self).cache.counters() == old(self).cache.counters(),
            old(self).cache.takes(block, final(self).cache.model()),
            old(self).cache.vram_used <= old(self).cache.vram_capacity
                ==> final(self).cache.vram_used <= final(self).cache.vram_capacity,
            copy@ == block@,
    {
        self.total_io_bytes = self.total_io_bytes + block.data.len() as u64;
        self.ssd_reads = self.ssd_reads + 1;
        let copy = block.copy();
        self.cache.insert(block);
        copy
    }

    /// One more token has been served.
    pub fn finish_token(&mut self)
        requires
            old(self).tokens_served < u64::MAX,
        ensures
            *final(self) == (SsdStripe {
                tokens_served: (old(self).tokens_served + 1) as u64,
                ..*old(self)
            }),
    {
        self.tokens_served = self.tokens_served + 1;
    }

    pub fn n_shards(&self) -> (n: usize)
        ensures
            n == self.shard_indices@.len(),
    {
        self.shard_indices.len()
    }
}

/// What is to be read from disk is every expert that is in neither memory, in the order
/// asked for.
pub proof fn missing_experts_are_read(m: CacheModel, experts: Seq<ExpertId>)
    ensures
        missing(m, experts) == experts.filter(
            |id: ExpertId| !m.vram.contains_key(id) && !m.ram.contains_key(id),
        ),
    decreases experts.len(),
{
    reveal(Seq::filter);
    if experts.len() > 0 {
        missing_experts_are_read(m, experts.drop_last());
    }
}

/// What comes from memory is the block of every expert that is in either, in the order
/// asked for; where both hold it, the one in graphics memory.
pub proof fn cached_experts_are_served(m: CacheModel, experts: Seq<ExpertId>)
    ensures
        cached(m, experts) == experts.filter(
            |id: ExpertId| m.vram.contains_key(id) || m.ram.contains_key(id),
        ).map_values(
            |id: ExpertId|
                if m.vram.contains_key(id) {
                    m.vram[id]@
                } else {
                    m.ram[id]@
                },
        ),
    decreases experts.len(),
{
    reveal(Seq::filter);
    let here = |id: ExpertId| m.vram.contains_key(id) || m.ram.contains_key(id);
    let block = |id: ExpertId|
        if m.vram.contains_key(id) {
            m.vram[id]@
        } else {
            m.ram[id]@
        };
    if experts.len() > 0 {
        cached_experts_are_served(m, experts.drop_last());
    }
    assert(cached(m, experts) =~= experts.filter(here).map_values(block));
}

/// Every lookup is counted once: in graphics memory, in main memory or on disk, wherever
/// the expert is found first.
pub proof fn lookups_are_tallied(m: CacheModel, experts: Seq<ExpertId>)
    ensures
        tallies(m, experts).0 == experts.filter(|id: ExpertId| m.vram.contains_key(id)).len(),
        tallies(m, experts).0 + tallies(m, experts).1 == cached(m, experts).len(),
        tallies(m, experts).2 == missing(m, experts).len(),
    decreases experts.len(),
{
    reveal(Seq::filter);
    if experts.len() > 0 {
        lookups_are_tallied(m, experts.drop_last());
    }
}

/// Lookups change neither memory.
pub proof fn lookups_move_no_block(m: CacheModel, experts: Seq<ExpertId>)
    ensures
        looked_up(m, experts).vram == m.vram,
        looked_up(m, experts).ram == m.ram,
        looked_up(m, experts).vram_used == m.vram_used,
        looked_up(m, experts).ram_used == m.ram_used,
    decreases experts.len(),
{
    if experts.len() > 0 {
        lookups_move_no_block(m, experts.drop_last());
    }
}

/// The last expert that was found in main memory stands first among the recently used.
pub proof fn last_lookup_stands_first(m: CacheModel, experts: Seq<ExpertId>, id: ExpertId)
    requires
        !m.vram.contains_key(id),
        m.ram.contains_key(id),
    ensures
        looked_up(m, experts.push(id)).lru.len() > 0,
        looked_up(m, experts.push(id)).lru[0] == id,
{
    assert(experts.push(id).drop_last() =~= experts);
}

/// The shard of an expert is the remainder of its number, counted over all layers with a
/// million and three to a layer.
pub proof fn shards_go_by_the_remainder(id: ExpertId, n: nat)
    requires
        n > 0,
    ensures
        shard_of(id, n) == (id.layer * 1000003 + id.expert) % (n as int),
        0 <= shard_of(id, n) < n,
{
    assert(id.layer * 1000003 + id.expert < 0x1_0000_0000_0000_0000);
}

} // verus!
