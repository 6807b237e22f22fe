//! Several sessions on one pool of memory blocks: each session has a table from
//! its own contiguous blocks to blocks of the pool.

use std::collections::{HashMap, VecDeque};
use vstd::prelude::*;

verus! {

broadcast use vstd::std_specs::hash::group_hash_axioms;

/// A session.
pub type SessionId = usize;

/// A block of the pool.
pub type PhysicalBlockId = usize;

/// A block as its session sees it.
pub type LogicalBlockId = usize;

/// A request in the queue.
pub struct InferenceRequest {
    pub session_id: SessionId,
    pub token_ids: Vec<u32>,
    pub is_prefill: bool,
}

/// The index of the first free block; the number of blocks where none is free.
pub open spec fn first_free(bitmap: Seq<bool>) -> int
    decreases bitmap.len(),
{
    if bitmap.len() == 0 || bitmap[0] {
        0
    } else {
        1 + first_free(bitmap.skip(1))
    }
}

/// What the first free block is: free, with no free block before it.
pub proof fn first_free_is_first(bitmap: Seq<bool>)
    ensures
        0 <= first_free(bitmap) <= bitmap.len(),
        first_free(bitmap) < bitmap.len() ==> bitmap[first_free(bitmap)],
        forall|i: int| 0 <= i < first_free(bitmap) ==> !#[trigger] bitmap[i],
    decreases bitmap.len(),
{
    if bitmap.len() > 0 && !bitmap[0] {
        let rest = bitmap.skip(1);
        first_free_is_first(rest);
        assert forall|i: int| 0 <= i < first_free(bitmap) implies !#[trigger] bitmap[i] by {
            if i > 0 {
                assert(bitmap[i] == rest[i - 1]);
            }
        }
    }
}

/// The blocks that sessions share.
pub struct PagePool {
    pub total_blocks: usize,
    /// Which blocks are free.
    pub free_bitmap: Vec<bool>,
    /// Blocks of known prefixes by hash.
    pub prefix_cache: HashMap<u64, PhysicalBlockId>,
}

impl PagePool {
    /// There is a mark for every block.
    pub open spec fn wf(&self) -> bool {
        self.free_bitmap@.len() == self.total_blocks
    }

    /// A pool of free blocks.
    pub fn new(total_blocks: usize) -> (p: PagePool)
        ensures
            p.wf(),
            p.total_blocks == total_blocks,
            p.free_bitmap@ == Seq::new(total_blocks as nat, |i: int| true),
            p.prefix_cache@ == Map::<u64, PhysicalBlockId>::empty(),
    {
        let free_bitmap: Vec<bool> = vec![true; total_blocks];
        assert(free_bitmap@ =~= Seq::new(total_blocks as nat, |i: int| true));
        PagePool { total_blocks, free_bitmap, prefix_cache: HashMap::new() }
    }

    /// Takes the first free block.
    pub fn allocate_block(&mut self) -> (r: Option<PhysicalBlockId>)
        ensures
            final(self).total_blocks == old(self).total_blocks,
            final(self).prefix_cache == old(self).prefix_cache,
            match r {
                Some(id) => id < old(self).free_bitmap@.len() && id == first_free(
                    old(self).free_bitmap@,
                ) && final(self).free_bitmap@ == old(self).free_bitmap@.update(id as int, false),
                None => first_free(old(self).free_bitmap@) == old(self).free_bitmap@.len()
                    && *final(self) == *old(self),
            },
    {
        let mut i: usize = 0;
        let ghost all = self.free_bitmap@;
        assert(all.skip(0) =~= all);
        while i < self.free_bitmap.len()
            invariant
                i <= all.len(),
                all == self.free_bitmap@,
                *self == *old(self),
                first_free(all) == i + first_free(all.skip(i as int)),
            decreases all.len() - i,
        {
            if self.free_bitmap[i] {
                self.free_bitmap.set(i, false);
                return Some(i);
            }
            assert(all.skip(i as int).skip(1) =~= all.skip(i + 1));
            i = i + 1;
        }
        None
    }

    /// Gives a block back. An unknown block is ignored.
    pub fn free_block(&mut self, id: PhysicalBlockId)
        requires
            old(self).wf(),
        ensures
            final(self).wf(),
            final(self).total_blocks == old(self).total_blocks,
            final(self).prefix_cache == old(self).prefix_cache,
            final(self).free_bitmap@ == if id < old(self).total_blocks {
                old(self).free_bitmap@.update(id as int, true)
            } else {
                old(self).free_bitmap@
            },
    {
        if id < self.total_blocks {
            self.free_bitmap.set(id, true);
        }
    }
}

/// The blocks of one session.
pub struct SessionPageTable {
    pub logical_to_physical: HashMap<LogicalBlockId, PhysicalBlockId>,
    pub num_allocated: usize,
}

/// The blocks of one session as a mathematical value.
pub struct TableModel {
    pub blocks: Map<LogicalBlockId, PhysicalBlockId>,
    pub num_allocated: nat,
}

impl View for SessionPageTable {
    type V = TableModel;

    open spec fn view(&self) -> TableModel {
        TableModel {
            blocks: self.logical_to_physical@,
            num_allocated: self.num_allocated as nat,
        }
    }
}

impl SessionPageTable {
    pub fn new() -> (t: SessionPageTable)
        ensures
            t@ == TableModel::empty(),
    {
        SessionPageTable { logical_to_physical: HashMap::new(), num_allocated: 0 }
    }
}

impl TableModel {
    /// No block.
    pub open spec fn empty() -> TableModel {
        TableModel { blocks: Map::empty(), num_allocated: 0 }
    }
}

/// Finds a pool block for each of the `left` blocks from `logical` on that has
/// none yet: the marks and the table afterwards, and whether there were enough.
pub open spec fn placed(
    bitmap: Seq<bool>,
    blocks: Map<LogicalBlockId, PhysicalBlockId>,
    logical: nat,
    left: nat,
) -> (Seq<bool>, Map<LogicalBlockId, PhysicalBlockId>, bool)
    decreases left,
{
    let f = first_free(bitmap);
    if left == 0 {
        (bitmap, blocks, true)
    } else if blocks.contains_key(logical as usize) {
        placed(bitmap, blocks, logical + 1, (left - 1) as nat)
    } else if f < bitmap.len() {
        placed(
            bitmap.update(f, false),
            blocks.insert(logical as usize, f as usize),
            logical + 1,
            (left - 1) as nat,
        )
    } else {
        (bitmap, blocks, false)
    }
}

/// How many blocks `tokens` tokens need.
pub open spec fn blocks_for(tokens: nat, per_block: nat) -> nat {
    ((tokens + per_block - 1) / (per_block as int)) as nat
}

/// The scheduler as a mathematical value, with the sessions served so far.
pub struct Schedule {
    pub bitmap: Seq<bool>,
    pub tables: Map<SessionId, TableModel>,
    pub queue: Seq<InferenceRequest>,
    pub active: Seq<SessionId>,
}

impl Schedule {
    /// The table of a session; an empty one where it has none.
    pub open spec fn table(self, s: SessionId) -> TableModel {
        if self.tables.contains_key(s) {
            self.tables[s]
        } else {
            TableModel::empty()
        }
    }

    /// Tries to serve the first request. A request that cannot be served in full
    /// keeps the blocks it got and stays first.
    pub open spec fn step(self, per_block: nat) -> Schedule {
        if self.queue.len() == 0 {
            self
        } else {
            let s = self.queue[0].session_id;
            let t = self.table(s);
            let need = blocks_for(self.queue[0].token_ids@.len(), per_block);
            let (bitmap, blocks, ok) = placed(self.bitmap, t.blocks, t.num_allocated, need);
            if ok {
                Schedule {
                    bitmap,
                    tables: self.tables.insert(
                        s,
                        TableModel { blocks, num_allocated: t.num_allocated + need },
                    ),
                    queue: self.queue.skip(1),
                    active: self.active.push(s),
                }
            } else {
                Schedule {
                    bitmap,
                    tables: self.tables.insert(
                        s,
                        TableModel { blocks, num_allocated: t.num_allocated },
                    ),
                    ..self
                }
            }
        }
    }

    /// Takes `n` steps.
    pub open spec fn run(self, n: nat, per_block: nat) -> Schedule
        decreases n,
    {
        if n == 0 {
            self
        } else {
            self.run((n - 1) as nat, per_block).step(per_block)
        }
    }

    /// Every block that a session holds is a block of the pool that is not free,
    /// and no block is held twice.
    pub open spec fn isolated(self) -> bool {
        &&& forall|s: SessionId, l: LogicalBlockId|
            self.tables.contains_key(s) && self.tables[s].blocks.contains_key(l) ==> {
                let p = #[trigger] self.tables[s].blocks[l];
                p < self.bitmap.len() && !self.bitmap[p as int]
            }
        &&& forall|s: SessionId, l: LogicalBlockId, t: SessionId, m: LogicalBlockId|
            self.tables.contains_key(s) && self.tables[s].blocks.contains_key(l)
                && self.tables.contains_key(t) && self.tables[t].blocks.contains_key(m) && (s != t
                || l != m) ==> #[trigger] self.tables[s].blocks[l]
                != #[trigger] self.tables[t].blocks[m]
    }

    /// Some session holds block `p` of the pool.
    pub open spec fn holds(self, p: int) -> bool {
        exists|s: SessionId, l: LogicalBlockId|
            self.tables.contains_key(s) && self.tables[s].blocks.contains_key(l)
                && #[trigger] self.tables[s].blocks[l] == p
    }

    /// Every block of the pool that is not free is held by some session: none is
    /// lost.
    pub open spec fn accounted(self) -> bool {
        forall|p: int|
            0 <= p < self.bitmap.len() && !(#[trigger] self.bitmap[p]) ==> self.holds(p)
    }
}

/// How many blocks the requests in a queue need together.
pub open spec fn total_need(queue: Seq<InferenceRequest>, per_block: nat) -> nat
    decreases queue.len(),
{
    if queue.len() == 0 {
        0
    } else {
        blocks_for(queue[0].token_ids@.len(), per_block) + total_need(queue.skip(1), per_block)
    }
}

/// Placing blocks of one session keeps its blocks apart from each other and from
/// those of the others.
proof fn placing_isolates(
    sched: Schedule,
    s: SessionId,
    bitmap: Seq<bool>,
    blocks: Map<LogicalBlockId, PhysicalBlockId>,
    num: nat,
    logical: nat,
    left: nat,
)
    requires
        (Schedule {
            bitmap,
            tables: sched.tables.insert(s, TableModel { blocks, num_allocated: num }),
            ..sched
        }).isolated(),
        logical + left <= usize::MAX,
        bitmap.len() <= usize::MAX,
    ensures
        ({
            let r = placed(bitmap, blocks, logical, left);
            (Schedule {
                bitmap: r.0,
                tables: sched.tables.insert(s, TableModel { blocks: r.1, num_allocated: num }),
                ..sched
            }).isolated()
        }),
    decreases left,
{
    if left > 0 {
        first_free_is_first(bitmap);
        let f = first_free(bitmap);
        if blocks.contains_key(logical as usize) {
            placing_isolates(sched, s, bitmap, blocks, num, logical + 1, (left - 1) as nat);
        } else if f < bitmap.len() {
            let b2 = bitmap.update(f, false);
            let m2 = blocks.insert(logical as usize, f as usize);
            let before = Schedule {
                bitmap,
                tables: sched.tables.insert(s, TableModel { blocks, num_allocated: num }),
                ..sched
            };
            let after = Schedule {
                bitmap: b2,
                tables: sched.tables.insert(s, TableModel { blocks: m2, num_allocated: num }),
                ..sched
            };
            assert forall|t: SessionId, l: LogicalBlockId|
                after.tables.contains_key(t) && after.tables[t].blocks.contains_key(l) implies {
                let p = #[trigger] after.tables[t].blocks[l];
                &&& p < b2.len() && !b2[p as int]
                &&& (t != s || l != logical) ==> p != f && before.tables.contains_key(t)
                    && before.tables[t].blocks.contains_key(l) && p == before.tables[t].blocks[l]
            } by {
                if t != s || l != logical {
                    let p = before.tables[t].blocks[l];
                    assert(p < bitmap.len() && !bitmap[p as int]);
                }
            }
            assert(after.isolated());
            placing_isolates(sched, s, b2, m2, num, logical + 1, (left - 1) as nat);
        }
    }
}

/// Placing blocks of a session loses none: each block that is taken is entered in
/// the session's table.
proof fn placing_accounts(
    sched: Schedule,
    s: SessionId,
    bitmap: Seq<bool>,
    blocks: Map<LogicalBlockId, PhysicalBlockId>,
    num: nat,
    logical: nat,
    left: nat,
)
    requires
        (Schedule {
            bitmap,
            tables: sched.tables.insert(s, TableModel { blocks, num_allocated: num }),
            ..sched
        }).accounted(),
        logical + left <= usize::MAX,
        bitmap.len() <= usize::MAX,
    ensures
        ({
            let r = placed(bitmap, blocks, logical, left);
            (Schedule {
                bitmap: r.0,
                tables: sched.tables.insert(s, TableModel { blocks: r.1, num_allocated: num }),
                ..sched
            }).accounted()
        }),
    decreases left,
{
    if left > 0 {
        first_free_is_first(bitmap);
        let f = first_free(bitmap);
        if blocks.contains_key(logical as usize) {
            placing_accounts(sched, s, bitmap, blocks, num, logical + 1, (left - 1) as nat);
        } else if f < bitmap.len() {
            let b2 = bitmap.update(f, false);
            let m2 = blocks.insert(logical as usize, f as usize);
            let before = Schedule {
                bitmap,
                tables: sched.tables.insert(s, TableModel { blocks, num_allocated: num }),
                ..sched
            };
            let after = Schedule {
                bitmap: b2,
                tables: sched.tables.insert(s, TableModel { blocks: m2, num_allocated: num }),
                ..sched
            };
            assert forall|p: int| 0 <= p < b2.len() && !(#[trigger] b2[p]) implies after.holds(
                p,
            ) by {
                if p == f {
                    assert(after.tables[s].blocks[logical as usize] == p);
                } else {
                    assert(!before.bitmap[p]);
                    let (x, l) = choose|x: SessionId, l: LogicalBlockId|
                        before.tables.contains_key(x) && before.tables[x].blocks.contains_key(l)
                            && #[trigger] before.tables[x].blocks[l] == p;
                    assert(after.tables[x].blocks[l] == p);
                }
            }
            placing_accounts(sched, s, b2, m2, num, logical + 1, (left - 1) as nat);
        }
    }
}

/// A step loses no block: where every block that is not free was held by a session,
/// that is so after it.
pub proof fn step_accounts(sched: Schedule, per_block: nat)
    requires
        sched.accounted(),
        per_block > 0,
        sched.bitmap.len() <= usize::MAX,
        sched.queue.len() > 0 ==> sched.table(sched.queue[0].session_id).num_allocated
            + blocks_for(sched.queue[0].token_ids@.len(), per_block) <= usize::MAX,
    ensures
        sched.step(per_block).accounted(),
{
    if sched.queue.len() > 0 {
        let s = sched.queue[0].session_id;
        let t = sched.table(s);
        let need = blocks_for(sched.queue[0].token_ids@.len(), per_block);
        let start = Schedule {
            bitmap: sched.bitmap,
            tables: sched.tables.insert(
                s,
                TableModel { blocks: t.blocks, num_allocated: t.num_allocated },
            ),
            ..sched
        };
        assert forall|p: int| 0 <= p < start.bitmap.len() && !(
        #[trigger] start.bitmap[p]) implies start.holds(p) by {
            assert(!sched.bitmap[p]);
            let (x, l) = choose|x: SessionId, l: LogicalBlockId|
                sched.tables.contains_key(x) && sched.tables[x].blocks.contains_key(l)
                    && #[trigger] sched.tables[x].blocks[l] == p;
            assert(start.tables[x].blocks[l] == p);
        }
        placing_accounts(
            sched,
            s,
            sched.bitmap,
            t.blocks,
            t.num_allocated,
            t.num_allocated,
            need,
        );
        let r = placed(sched.bitmap, t.blocks, t.num_allocated, need);
        let kept = Schedule {
            bitmap: r.0,
            tables: sched.tables.insert(
                s,
                TableModel { blocks: r.1, num_allocated: t.num_allocated },
            ),
            ..sched
        };
        let after = sched.step(per_block);
        assert forall|p: int| 0 <= p < after.bitmap.len() && !(
        #[trigger] after.bitmap[p]) implies after.holds(p) by {
            assert(!kept.bitmap[p]);
            let (x, l) = choose|x: SessionId, l: LogicalBlockId|
                kept.tables.contains_key(x) && kept.tables[x].blocks.contains_key(l)
                    && #[trigger] kept.tables[x].blocks[l] == p;
            assert(after.tables[x].blocks[l] == p);
        }
    }
}

/// A step keeps every session's blocks its own.
pub proof fn step_isolates(sched: Schedule, per_block: nat)
    requires
        sched.isolated(),
        per_block > 0,
        sched.bitmap.len() <= usize::MAX,
        sched.queue.len() > 0 ==> sched.table(sched.queue[0].session_id).num_allocated
            + blocks_for(sched.queue[0].token_ids@.len(), per_block) <= usize::MAX,
    ensures
        sched.step(per_block).isolated(),
{
    if sched.queue.len() > 0 {
        let s = sched.queue[0].session_id;
        let t = sched.table(s);
        let need = blocks_for(sched.queue[0].token_ids@.len(), per_block);
        let start = Schedule {
            bitmap: sched.bitmap,
            tables: sched.tables.insert(
                s,
                TableModel { blocks: t.blocks, num_allocated: t.num_allocated },
            ),
            ..sched
        };
        assert forall|x: SessionId, l: LogicalBlockId|
            start.tables.contains_key(x) && start.tables[x].blocks.contains_key(l) implies {
            &&& sched.tables.contains_key(x)
            &&& sched.tables[x].blocks.contains_key(l)
            &&& #[trigger] start.tables[x].blocks[l] == sched.tables[x].blocks[l]
        } by {}
        assert(start.isolated());
        placing_isolates(
            sched,
            s,
            sched.bitmap,
            t.blocks,
            t.num_allocated,
            t.num_allocated,
            need,
        );
        let r = placed(sched.bitmap, t.blocks, t.num_allocated, need);
        let kept = Schedule {
            bitmap: r.0,
            tables: sched.tables.insert(
                s,
                TableModel { blocks: r.1, num_allocated: t.num_allocated },
            ),
            ..sched
        };
        let after = sched.step(per_block);
        assert forall|x: SessionId, l: LogicalBlockId|
            after.tables.contains_key(x) && after.tables[x].blocks.contains_key(l) implies {
            &&& kept.tables.contains_key(x)
            &&& kept.tables[x].blocks.contains_key(l)
            &&& #[trigger] after.tables[x].blocks[l] == kept.tables[x].blocks[l]
        } by {}
        assert(after.isolated());
    }
}

/// Serves requests from a queue.
pub struct MultiTenantScheduler {
    pub page_pool: PagePool,
    pub session_tables: HashMap<SessionId, SessionPageTable>,
    pub queue: VecDeque<InferenceRequest>,
    pub context_size_per_block: usize,
}

impl MultiTenantScheduler {
    /// The scheduler as a mathematical value; `active` are the sessions served.
    pub open spec fn schedule(&self, active: Seq<SessionId>) -> Schedule {
        Schedule {
            bitmap: self.page_pool.free_bitmap@,
            tables: self.session_tables@.map_values(|t: SessionPageTable| t@),
            queue: self.queue@,
            active,
        }
    }

    /// The blocks that all requests need can be counted, for every session on
    /// top of what it has.
    pub open spec fn countable(&self) -> bool {
        let per = self.context_size_per_block as nat;
        &&& forall|i: int|
            0 <= i < self.queue@.len() ==> (#[trigger] self.queue@[i]).token_ids@.len() + per
                <= usize::MAX
        &&& total_need(self.queue@, per) <= usize::MAX
        &&& forall|s: SessionId| #[trigger]
            self.session_tables@.contains_key(s) ==> self.session_tables@[s].num_allocated
                + total_need(self.queue@, per) <= usize::MAX
    }

    /// A pool of free blocks and no request.
    pub fn new(total_blocks: usize, context_size_per_block: usize) -> (m: MultiTenantScheduler)
        ensures
            m.page_pool.wf(),
            m.page_pool.total_blocks == total_blocks,
            m.context_size_per_block == context_size_per_block,
            m.schedule(Seq::empty()) == (Schedule {
                bitmap: Seq::new(total_blocks as nat, |i: int| true),
                tables: Map::empty(),
                queue: Seq::empty(),
                active: Seq::empty(),
            }),
            m.schedule(Seq::empty()).isolated(),
            m.schedule(Seq::empty()).accounted(),
    {
        let m = MultiTenantScheduler {
            page_pool: PagePool::new(total_blocks),
            session_tables: HashMap::new(),
            queue: VecDeque::new(),
            context_size_per_block,
        };
        assert(m.schedule(Seq::empty()).tables =~= Map::empty());
        m
    }

    /// Puts a request at the end of the queue.
    pub fn submit_request(&mut self, request: InferenceRequest)
        ensures
            final(self).queue@ == old(self).queue@.push(request),
            final(self).page_pool == old(self).page_pool,
            final(self).session_tables == old(self).session_tables,
            final(self).context_size_per_block == old(self).context_size_per_block,
    {
        self.queue.push_back(request);
    }

    /// Tries to serve as many requests as there are in the queue, first come
    /// first served. Returns the sessions that were served.
    pub fn schedule_next_batch(&mut self) -> (active: Vec<SessionId>)
        requires
            old(self).context_size_per_block > 0,
            old(self).page_pool.wf(),
            old(self).countable(),
        ensures
            final(self).page_pool.wf(),
            final(self).page_pool.total_blocks == old(self).page_pool.total_blocks,
            final(self).page_pool.prefix_cache == old(self).page_pool.prefix_cache,
            final(self).context_size_per_block == old(self).context_size_per_block,
            final(self).schedule(active@) == old(self).schedule(Seq::empty()).run(
                old(self).queue@.len(),
                old(self).context_size_per_block as nat,
            ),
            old(self).schedule(Seq::empty()).isolated() ==> final(self).schedule(
                active@,
            ).isolated(),
            old(self).schedule(Seq::empty()).accounted() ==> final(self).schedule(
                active@,
            ).accounted(),
    {
        let mut active: Vec<SessionId> = Vec::new();
        let per: usize = self.context_size_per_block;
        let rounds: usize = self.queue.len();
        let ghost first = self.schedule(Seq::empty());
        let ghost isolated = first.isolated();
        let ghost accounted = first.accounted();
        let mut k: usize = 0;
        assert(self.schedule(active@) == first);
        while k < rounds
            invariant
                k <= rounds,
                per > 0,
                self.context_size_per_block == per,
                old(self).context_size_per_block == per,
                self.page_pool.wf(),
                self.page_pool.total_blocks == old(self).page_pool.total_blocks,
                self.page_pool.prefix_cache == old(self).page_pool.prefix_cache,
                self.countable(),
                self.schedule(active@) == first.run(k as nat, per as nat),
                isolated ==> self.schedule(active@).isolated(),
                accounted ==> self.schedule(active@).accounted(),
            decreases rounds - k,
        {
            let ghost before = self.schedule(active@);
            proof {
                if isolated && before.queue.len() > 0 {
                    self.step_fits(active@);
                    step_isolates(before, per as nat);
                }
                if accounted && before.queue.len() > 0 {
                    self.step_fits(active@);
                    step_accounts(before, per as nat);
                }
            }
            self.serve_first(&mut active);
            k = k + 1;
        }
        active
    }

    proof fn step_fits(&self, active: Seq<SessionId>)
        requires
            self.countable(),
            self.context_size_per_block > 0,
            self.queue@.len() > 0,
        ensures
            ({
                let g = self.schedule(active);
                let per = self.context_size_per_block as nat;
                &&& g.table(g.queue[0].session_id).num_allocated + blocks_for(
                    g.queue[0].token_ids@.len(),
                    per,
                ) <= usize::MAX
                &&& g.table(g.queue[0].session_id).num_allocated + total_need(g.queue, per)
                    <= usize::MAX
            }),
    {
    }

    /// Tries to serve the first request.
    fn serve_first(&mut self, active: &mut Vec<SessionId>)
        requires
            old(self).context_size_per_block > 0,
            old(self).page_pool.wf(),
            old(self).countable(),
        ensures
            final(self).page_pool.wf(),
            final(self).page_pool.total_blocks == old(self).page_pool.total_blocks,
            final(self).page_pool.prefix_cache == old(self).page_pool.prefix_cache,
            final(self).context_size_per_block == old(self).context_size_per_block,
            final(self).countable(),
            final(self).schedule(final(active)@) == old(self).schedule(old(active)@).step(
                old(self).context_size_per_block as nat,
            ),
    {
        let per: usize = self.context_size_per_block;
        let ghost before = *self;
        let ghost g = self.schedule(active@);
        let req = match self.queue.pop_front() {
            Some(r) => r,
            None => {
                assert(self.queue@ =~= before.queue@);
                return ;
            },
        };
        assert(before.queue@ =~= seq![req] + self.queue@);
        assert(self.queue@ =~= before.queue@.skip(1));
        let s: usize = req.session_id;
        let mut table = match self.session_tables.remove(&s) {
            Some(t) => t,
            None => SessionPageTable::new(),
        };
        assert(table@ == g.table(s));
        proof {
            before.step_fits(active@);
            assert(before.queue@[0].token_ids@.len() + per <= usize::MAX);
        }
        let need: usize = (req.token_ids.len() + (per - 1)) / per;
        let ghost need_n = blocks_for(req.token_ids@.len(), per as nat);
        assert(need == need_n);
        let start: usize = table.num_allocated;
        let mut offset: usize = 0;
        let mut ok: bool = true;
        let ghost want = placed(g.bitmap, g.table(s).blocks, start as nat, need as nat);
        while offset < need && ok
            invariant
                offset <= need,
                start + need <= usize::MAX,
                table.num_allocated == start,
                self.page_pool.wf(),
                self.page_pool.total_blocks == before.page_pool.total_blocks,
                self.page_pool.prefix_cache == before.page_pool.prefix_cache,
                self.context_size_per_block == per,
                self.queue@ == before.queue@.skip(1),
                self.session_tables@ == before.session_tables@.remove(s),
                ok ==> want == placed(
                    self.page_pool.free_bitmap@,
                    table.logical_to_physical@,
                    (start + offset) as nat,
                    (need - offset) as nat,
                ),
                !ok ==> want == (
                    self.page_pool.free_bitmap@,
                    table.logical_to_physical@,
                    false,
                ),
            decreases
                need - offset + if ok {
                    1int
                } else {
                    0int
                },
        {
            let logical: usize = start + offset;
            if !table.logical_to_physical.contains_key(&logical) {
                match self.page_pool.allocate_block() {
                    Some(phys) => {
                        table.logical_to_physical.insert(logical, phys);
                        offset = offset + 1;
                    },
                    None => {
                        ok = false;
                    },
                }
            } else {
                offset = offset + 1;
            }
        }
        if ok {
            table.num_allocated = table.num_allocated + need;
            let ghost model = table@;
            self.session_tables.insert(s, table);
            active.push(s);
            proof {
                assert(self.schedule(active@).tables =~= g.tables.insert(s, model));
                assert(self.schedule(active@).queue =~= g.queue.skip(1));
                assert forall|i: int| 0 <= i < self.queue@.len() implies (
                #[trigger] self.queue@[i]).token_ids@.len() + per <= usize::MAX by {
                    assert(self.queue@[i] == before.queue@[i + 1]);
                }
                assert forall|x: SessionId| #[trigger]
                    self.session_tables@.contains_key(x) implies self.session_tables@[x].num_allocated
                    + total_need(self.queue@, per as nat) <= usize::MAX by {
                    if x != s {
                        assert(before.session_tables@.contains_key(x));
                    }
                }
            }
        } else {
            let ghost model = table@;
            self.session_tables.insert(s, table);
            self.queue.push_front(req);
            proof {
                assert(self.queue@ =~= before.queue@);
                assert(self.schedule(active@).tables =~= g.tables.insert(s, model));
                assert forall|x: SessionId| #[trigger]
                    self.session_tables@.contains_key(x) implies self.session_tables@[x].num_allocated
                    + total_need(self.queue@, per as nat) <= usize::MAX by {
                    if x != s {
                        assert(before.session_tables@.contains_key(x));
                    }
                }
            }
        }
    }
}

/// Tokens fill as few whole blocks as hold them.
pub proof fn tokens_fill_whole_blocks(tokens: nat, per_block: nat)
    requires
        per_block > 0,
    ensures
        tokens <= blocks_for(tokens, per_block) * per_block,
        tokens > 0 ==> (blocks_for(tokens, per_block) - 1) * per_block < tokens,
        tokens == 0 ==> blocks_for(tokens, per_block) == 0,
{
    let up = tokens + per_block - 1;
    let n = blocks_for(tokens, per_block) as int;
    let p = per_block as int;
    vstd::arithmetic::div_mod::lemma_fundamental_div_mod(up, p);
    assert(p * n == n * p) by (nonlinear_arith);
    assert((n - 1) * p == n * p - p) by (nonlinear_arith);
    if tokens == 0 {
        assert(n == 0) by (nonlinear_arith)
            requires
                n * p <= p - 1,
                p > 0,
                n >= 0,
        ;
    }
}

/// To place blocks gives a block to each of the logical blocks asked for, unless none is
/// left: it fails only where the pool is used up. No block that was placed before moves, no
/// other logical block gets one, and no block becomes free.
pub proof fn placing_serves_every_block(
    bitmap: Seq<bool>,
    blocks: Map<LogicalBlockId, PhysicalBlockId>,
    logical: nat,
    left: nat,
)
    requires
        logical + left <= usize::MAX,
        bitmap.len() <= usize::MAX,
    ensures
        ({
            let (bits, map, ok) = placed(bitmap, blocks, logical, left);
            &&& bits.len() == bitmap.len()
            &&& ok ==> forall|l: usize| logical <= l < logical + left ==> #[trigger] map.contains_key(l)
            &&& !ok ==> forall|i: int| 0 <= i < bits.len() ==> !#[trigger] bits[i]
            &&& forall|l: usize| #[trigger]
                blocks.contains_key(l) ==> map.contains_key(l) && map[l] == blocks[l]
            &&& forall|l: usize| #[trigger]
                map.contains_key(l) ==> blocks.contains_key(l) || (logical <= l < logical + left
                    && map[l] < bitmap.len() && bitmap[map[l] as int] && !bits[map[l] as int])
            &&& forall|i: int| 0 <= i < bits.len() && #[trigger] bits[i] ==> bitmap[i]
        }),
    decreases left,
{
    first_free_is_first(bitmap);
    let f = first_free(bitmap);
    if left > 0 {
        if blocks.contains_key(logical as usize) {
            placing_serves_every_block(bitmap, blocks, logical + 1, (left - 1) as nat);
            let (bits, map, ok) = placed(bitmap, blocks, logical, left);
            assert(map.contains_key(logical as usize));
        } else if f < bitmap.len() {
            let next = bitmap.update(f, false);
            let more = blocks.insert(logical as usize, f as usize);
            placing_serves_every_block(next, more, logical + 1, (left - 1) as nat);
            let (bits, map, ok) = placed(bitmap, blocks, logical, left);
            assert(more.contains_key(logical as usize));
            assert(map.contains_key(logical as usize) && map[logical as usize] == f as usize);
            assert(!next[f]);
            assert(!bits[f]);
            assert forall|l: usize| #[trigger] blocks.contains_key(l) implies map.contains_key(l)
                && map[l] == blocks[l] by {
                assert(more.contains_key(l));
            }
            assert forall|l: usize| #[trigger] map.contains_key(l) implies blocks.contains_key(l)
                || (logical <= l < logical + left && map[l] < bitmap.len() && bitmap[map[l] as int]
                && !bits[map[l] as int]) by {
                if l != logical && !more.contains_key(l) {
                    assert(next[map[l] as int]);
                }
            }
            assert forall|i: int| 0 <= i < bits.len() && #[trigger] bits[i] implies bitmap[i] by {
                assert(next[i]);
            }
        }
    }
}

/// A request that is served leaves the queue and its session is named; one that cannot be
/// served stays first. The others keep their places, and so do the blocks of every other
/// session.
pub proof fn requests_are_served_in_order(sched: Schedule, per_block: nat)
    requires
        sched.queue.len() > 0,
    ensures
        ({
            let after = sched.step(per_block);
            let first = sched.queue[0].session_id;
            &&& (after.queue == sched.queue && after.active == sched.active) || (after.queue
                == sched.queue.skip(1) && after.active == sched.active.push(first))
            &&& forall|s: SessionId|
                s != first ==> #[trigger] after.tables.contains_key(s) == sched.tables.contains_key(
                    s,
                ) && after.tables[s] == sched.tables[s]
        }),
{
}

} // verus!
