//! The attention cache in pages: logical blocks of a request map to physical
//! pages that need not be contiguous, so that requests of different lengths
//! share one pool without fragmentation.

use std::collections::HashMap;
use vstd::prelude::*;

use crate::text::{dec, push_dec};

verus! {

broadcast use vstd::std_specs::hash::group_hash_axioms;

/// Tokens per page.
pub const PAGE_SIZE: usize = 16;

/// A physical page.
pub type PhysicalBlockId = u32;

/// A request.
pub type RequestId = u64;

/// What a physical page is used for.
#[derive(Debug, Clone, Copy, PartialEq, Eq, Structural)]
pub enum PageState {
    /// Nothing.
    Free,
    /// One request writes to it.
    Allocated { request_id: RequestId, tokens_used: usize },
    /// Several requests read it.
    Shared { ref_count: u32, owner: RequestId },
}

/// The physical page of each logical block of a request.
#[derive(Debug)]
pub struct BlockTable {
    pub mapping: Vec<PhysicalBlockId>,
}

impl Default for BlockTable {
    fn default() -> (t: BlockTable)
        ensures
            t.mapping@.len() == 0,
    {
        BlockTable { mapping: Vec::new() }
    }
}

impl BlockTable {
    /// How many logical blocks there are.
    pub fn len(&self) -> (n: usize)
        ensures
            n == self.mapping@.len(),
    {
        self.mapping.len()
    }

    pub fn is_empty(&self) -> (b: bool)
        ensures
            b == (self.mapping@.len() == 0),
    {
        self.mapping.len() == 0
    }

    /// The page of a logical block.
    pub fn physical_block(&self, logical_idx: usize) -> (r: Option<PhysicalBlockId>)
        ensures
            r == if logical_idx < self.mapping@.len() {
                Some(self.mapping@[logical_idx as int])
            } else {
                None
            },
    {
        if logical_idx < self.mapping.len() {
            Some(self.mapping[logical_idx])
        } else {
            None
        }
    }
}

#[derive(Debug)]
pub struct PagedAttentionStats {
    pub total_pages: usize,
    pub free_pages: usize,
    pub allocations: u64,
    pub deallocations: u64,
    pub page_faults: u64,
    pub cow_copies: u64,
}

impl Default for PagedAttentionStats {
    fn default() -> (s: PagedAttentionStats)
        ensures
            s == (PagedAttentionStats {
                total_pages: 0,
                free_pages: 0,
                allocations: 0,
                deallocations: 0,
                page_faults: 0,
                cow_copies: 0,
            }),
    {
        PagedAttentionStats {
            total_pages: 0,
            free_pages: 0,
            allocations: 0,
            deallocations: 0,
            page_faults: 0,
            cow_copies: 0,
        }
    }
}

/// The pool of pages and the block table of each request.
pub struct PagedAttentionManager {
    /// The state of each page.
    pub pages: Vec<PageState>,
    /// The free pages; the last one is taken first.
    pub free_list: Vec<PhysicalBlockId>,
    pub block_tables: HashMap<RequestId, BlockTable>,
    pub head_dim: usize,
    pub num_kv_heads: usize,
    pub stats: PagedAttentionStats,
}

/// How many pages `tokens` tokens need.
pub open spec fn pages_for(tokens: nat) -> nat {
    (tokens + PAGE_SIZE - 1) as nat / PAGE_SIZE as nat
}

/// The last `n` entries of `free`, last first.
pub open spec fn taken_from(free: Seq<PhysicalBlockId>, n: nat) -> Seq<PhysicalBlockId> {
    Seq::new(n, |i: int| free[free.len() - 1 - i])
}

/// `pages` with the pages `ids` given to `request`.
pub open spec fn assigned(
    pages: Seq<PageState>,
    ids: Seq<PhysicalBlockId>,
    request: RequestId,
) -> Seq<PageState> {
    Seq::new(
        pages.len(),
        |p: int|
            if ids.contains(p as u32) && p <= u32::MAX {
                PageState::Allocated { request_id: request, tokens_used: 0 }
            } else {
                pages[p]
            },
    )
}

/// Whether a page is still in use after one of its users lets go of it.
pub open spec fn stays_shared(s: PageState) -> bool {
    s matches PageState::Shared { ref_count, .. } && ref_count > 1
}

/// The pages and the free list after the pages `ids` are let go one after the
/// other: a page with other users has one user less, any other page is free.
pub open spec fn released(
    pages: Seq<PageState>,
    free: Seq<PhysicalBlockId>,
    ids: Seq<PhysicalBlockId>,
) -> (Seq<PageState>, Seq<PhysicalBlockId>)
    decreases ids.len(),
{
    if ids.len() == 0 {
        (pages, free)
    } else {
        let (ps, fs) = released(pages, free, ids.drop_last());
        let id = ids.last();
        match ps[id as int] {
            PageState::Shared { ref_count, owner } if ref_count > 1 => (
                ps.update(
                    id as int,
                    PageState::Shared { ref_count: (ref_count - 1) as u32, owner },
                ),
                fs,
            ),
            _ => (ps.update(id as int, PageState::Free), fs.push(id)),
        }
    }
}

/// Where no page is shared, letting go of distinct pages frees all of them, in
/// their order, and changes no other page.
pub proof fn release_frees_exclusive_pages(
    pages: Seq<PageState>,
    free: Seq<PhysicalBlockId>,
    ids: Seq<PhysicalBlockId>,
)
    requires
        forall|i: int|
            0 <= i < ids.len() ==> (#[trigger] ids[i]) < pages.len() && !stays_shared(
                pages[ids[i] as int],
            ),
    ensures
        released(pages, free, ids).1 == free + ids,
        released(pages, free, ids).0.len() == pages.len(),
        forall|p: int|
            0 <= p < pages.len() ==> #[trigger] released(pages, free, ids).0[p] == if p <= u32::MAX
                && ids.contains(p as u32) {
                PageState::Free
            } else {
                pages[p]
            },
    decreases ids.len(),
{
    if ids.len() > 0 {
        let rest = ids.drop_last();
        assert forall|i: int| 0 <= i < rest.len() implies (#[trigger] rest[i]) < pages.len()
            && !stays_shared(pages[rest[i] as int]) by {
            assert(rest[i] == ids[i]);
        }
        release_frees_exclusive_pages(pages, free, rest);
        let (ps, fs) = released(pages, free, rest);
        let id = ids.last();
        assert(ids[ids.len() - 1] == id);
        assert(!stays_shared(ps[id as int]));
        assert(fs.push(id) =~= free + ids);
        assert forall|p: int| 0 <= p < pages.len() implies #[trigger] released(
            pages,
            free,
            ids,
        ).0[p] == if p <= u32::MAX && ids.contains(p as u32) {
            PageState::Free
        } else {
            pages[p]
        } by {
            if p <= u32::MAX && ids.contains(p as u32) && p != id {
                let k = choose|k: int| 0 <= k < ids.len() && ids[k] == p as u32;
                assert(rest[k] == p as u32);
            }
            if p <= u32::MAX && rest.contains(p as u32) {
                let k = choose|k: int| 0 <= k < rest.len() && rest[k] == p as u32;
                assert(ids[k] == p as u32);
            }
        }
    } else {
        assert(free + ids =~= free);
    }
}

/// How many pages all tables hold together.
pub open spec fn held(tables: Map<RequestId, Seq<PhysicalBlockId>>) -> nat
    decreases tables.dom().len(),
    when tables.dom().finite()
{
    if tables.dom().len() == 0 {
        0
    } else {
        let r = tables.dom().choose();
        tables[r].len() + held(tables.remove(r))
    }
}

/// A table that is taken out takes its pages with it.
pub proof fn held_without(tables: Map<RequestId, Seq<PhysicalBlockId>>, r: RequestId)
    requires
        tables.dom().finite(),
        tables.contains_key(r),
    ensures
        held(tables) == tables[r].len() + held(tables.remove(r)),
    decreases tables.dom().len(),
{
    let c = tables.dom().choose();
    assert(tables.dom().contains(r));
    assert(tables.dom().contains(c));
    if c != r {
        let less = tables.remove(c);
        assert(less.dom() =~= tables.dom().remove(c));
        held_without(less, r);
        let other = tables.remove(r);
        assert(other.dom() =~= tables.dom().remove(r));
        held_without(other, c);
        assert(less.remove(r) =~= other.remove(c));
    }
}

/// A table that is put in brings its pages, and those it replaces are gone.
pub proof fn held_with(
    tables: Map<RequestId, Seq<PhysicalBlockId>>,
    r: RequestId,
    table: Seq<PhysicalBlockId>,
)
    requires
        tables.dom().finite(),
    ensures
        held(tables.insert(r, table)) + (if tables.contains_key(r) {
            tables[r].len()
        } else {
            0
        }) == held(tables) + table.len(),
{
    let more = tables.insert(r, table);
    assert(more.dom() =~= tables.dom().insert(r));
    held_without(more, r);
    if tables.contains_key(r) {
        held_without(tables, r);
        assert(more.remove(r) =~= tables.remove(r));
    } else {
        assert(more.remove(r) =~= tables);
    }
}

/// The pages for new tokens have room for them, and for less than a page more.
pub proof fn pages_fit_closely(tokens: nat)
    ensures
        tokens <= pages_for(tokens) * PAGE_SIZE < tokens + PAGE_SIZE,
{
}

/// Freeing a request gives back what was allocated to it: the states of all
/// pages, as many free pages as before, and the tables of all others. Freeing it
/// once more changes nothing.
pub proof fn freeing_undoes_allocation(m: PagedAttentionManager, r: RequestId, tokens: nat)
    requires
        m.sound(),
        !m.tables().contains_key(r),
        pages_for(tokens) <= m.free_list@.len(),
    ensures
        ({
            let ids = taken_from(m.free_list@, pages_for(tokens));
            let left = m.free_list@.take(m.free_list@.len() - pages_for(tokens));
            let (pages, free) = released(assigned(m.pages@, ids, r), left, ids);
            let tables = m.tables().insert(r, Seq::empty()).insert(r, ids).remove(r);
            &&& pages == m.pages@
            &&& free.len() == m.free_list@.len()
            &&& free.to_set() == m.free_list@.to_set()
            &&& tables == m.tables()
            &&& released(pages, free, Seq::empty()) == (pages, free)
            &&& tables.remove(r) == tables
        }),
{
    let fl = m.free_list@;
    let n = pages_for(tokens);
    let ids = taken_from(fl, n);
    let left = fl.take(fl.len() - n);
    let taken = assigned(m.pages@, ids, r);
    assert forall|i: int| 0 <= i < ids.len() implies (#[trigger] ids[i]) < taken.len()
        && !stays_shared(taken[ids[i] as int]) by {
        assert(ids[i] == fl[fl.len() - 1 - i]);
        assert(ids.contains(ids[i]));
    }
    release_frees_exclusive_pages(taken, left, ids);
    let (pages, free) = released(taken, left, ids);
    assert forall|p: int| 0 <= p < m.pages@.len() implies pages[p] == m.pages@[p] by {
        if p <= u32::MAX && ids.contains(p as u32) {
            let k = choose|k: int| 0 <= k < ids.len() && ids[k] == p as u32;
            assert(fl[fl.len() - 1 - k] == p as u32);
            assert(m.pages@[fl[fl.len() - 1 - k] as int] == PageState::Free);
        }
    }
    assert(pages =~= m.pages@);
    assert(free == left + ids);
    assert forall|p: u32| free.to_set().contains(p) <==> fl.to_set().contains(p) by {
        if free.contains(p) {
            let k = choose|k: int| 0 <= k < free.len() && free[k] == p;
            if k < left.len() {
                assert(fl[k] == p);
            } else {
                assert(ids[k - left.len()] == p);
                assert(fl[fl.len() - 1 - (k - left.len())] == p);
            }
        }
        if fl.contains(p) {
            let k = choose|k: int| 0 <= k < fl.len() && fl[k] == p;
            if k < left.len() {
                assert(free[k] == p);
            } else {
                assert(ids[fl.len() - 1 - k] == p);
                assert(free[left.len() + (fl.len() - 1 - k)] == p);
            }
        }
    }
    assert(free.to_set() =~= fl.to_set());
    let tables = m.tables().insert(r, Seq::empty()).insert(r, ids).remove(r);
    assert(tables =~= m.tables());
    assert(tables.remove(r) =~= tables);
}

/// A page can have more users: it is in use, and they can be counted.
pub open spec fn shareable(pages: Seq<PageState>, ids: Seq<PhysicalBlockId>) -> bool {
    ids.len() <= 0x7fff_ffff && forall|i: int|
        0 <= i < ids.len() ==> (#[trigger] ids[i]) < pages.len() && match pages[ids[i] as int] {
            PageState::Free => false,
            PageState::Allocated { .. } => true,
            PageState::Shared { ref_count, .. } => ref_count <= 0x7fff_0000,
        }
}

/// The pages after `ids` have one user more each.
pub open spec fn shared(pages: Seq<PageState>, ids: Seq<PhysicalBlockId>) -> Seq<PageState>
    decreases ids.len(),
{
    if ids.len() == 0 {
        pages
    } else {
        let ps = shared(pages, ids.drop_last());
        let id = ids.last();
        match ps[id as int] {
            PageState::Free => ps,
            PageState::Allocated { request_id, .. } => ps.update(
                id as int,
                PageState::Shared { ref_count: 2, owner: request_id },
            ),
            PageState::Shared { ref_count, owner } => ps.update(
                id as int,
                PageState::Shared { ref_count: (ref_count + 1) as u32, owner },
            ),
        }
    }
}

impl PagedAttentionManager {
    /// The pages of each request.
    pub open spec fn tables(&self) -> Map<RequestId, Seq<PhysicalBlockId>> {
        self.block_tables@.map_values(|t: BlockTable| t.mapping@)
    }

    /// Every page that the free list or a table names exists.
    pub open spec fn valid(&self) -> bool {
        &&& self.stats.total_pages == self.pages@.len()
        &&& self.free_list@.len() <= self.stats.free_pages
        &&& forall|i: int|
            0 <= i < self.free_list@.len() ==> (#[trigger] self.free_list@[i]) < self.pages@.len()
        &&& forall|r: RequestId, i: int|
            self.tables().contains_key(r) && 0 <= i < self.tables()[r].len() ==> (
            #[trigger] self.tables()[r][i]) < self.pages@.len()
    }

    /// No page has two uses: free pages are listed once and marked free, the
    /// pages of a request are distinct and marked as its own.
    pub open spec fn sound(&self) -> bool {
        &&& self.valid()
        &&& self.free_list@.no_duplicates()
        &&& forall|i: int|
            0 <= i < self.free_list@.len() ==> self.pages@[#[trigger] self.free_list@[i] as int]
                == PageState::Free
        &&& forall|r: RequestId|
            #[trigger] self.tables().contains_key(r) ==> self.tables()[r].no_duplicates()
        &&& forall|r: RequestId, i: int|
            self.tables().contains_key(r) && 0 <= i < self.tables()[r].len() ==> (
            self.pages@[#[trigger] self.tables()[r][i] as int] matches PageState::Allocated {
                request_id,
                ..
            } && request_id == r)
    }

    /// No page is lost: the pages in the tables and the free pages add up to all
    /// pages.
    pub open spec fn complete(&self) -> bool {
        held(self.tables()) + self.free_list@.len() == self.pages@.len()
    }

    proof fn tables_are_finite(&self)
        ensures
            self.tables().dom().finite(),
    {
        broadcast use vstd::std_specs::hash::group_hash_axioms;

        assert(self.tables().dom() =~= self.block_tables@.dom());
    }

    /// In a pool that no page was lost from, and whose pages have one use each, the
    /// pages in the tables and the free pages add up to all pages. All are pages of
    /// the pool, and none is held twice.
    pub proof fn pages_add_up(&self)
        requires
            self.sound(),
            self.complete(),
        ensures
            held(self.tables()) + self.free_list@.len() == self.stats.total_pages,
            forall|r: RequestId, i: int|
                self.tables().contains_key(r) && 0 <= i < self.tables()[r].len() ==> (
                #[trigger] self.tables()[r][i]) < self.stats.total_pages,
            forall|r: RequestId, i: int, s: RequestId, j: int|
                #![trigger self.tables()[r][i], self.tables()[s][j]]
                self.tables().contains_key(r) && 0 <= i < self.tables()[r].len()
                    && self.tables().contains_key(s) && 0 <= j < self.tables()[s].len() && (r != s
                    || i != j) ==> self.tables()[r][i] != self.tables()[s][j],
    {
        assert forall|r: RequestId, i: int, s: RequestId, j: int|
            #![trigger self.tables()[r][i], self.tables()[s][j]]
            self.tables().contains_key(r) && 0 <= i < self.tables()[r].len()
                && self.tables().contains_key(s) && 0 <= j < self.tables()[s].len() && (r != s || i
                != j) implies self.tables()[r][i] != self.tables()[s][j] by {
            self.requests_are_isolated(r, i, s, j);
        }
    }

    /// The pages of different requests, and of different blocks of one request,
    /// are different, and none of them is free.
    pub proof fn requests_are_isolated(&self, r: RequestId, i: int, s: RequestId, j: int)
        requires
            self.sound(),
            self.tables().contains_key(r),
            self.tables().contains_key(s),
            0 <= i < self.tables()[r].len(),
            0 <= j < self.tables()[s].len(),
        ensures
            r != s || i != j ==> self.tables()[r][i] != self.tables()[s][j],
            !self.free_list@.contains(self.tables()[r][i]),
    {
        let a = self.tables()[r][i];
        let b = self.tables()[s][j];
        assert(self.pages@[a as int] matches PageState::Allocated { request_id, .. } && request_id
            == r);
        assert(self.pages@[b as int] matches PageState::Allocated { request_id, .. } && request_id
            == s);
        if r == s {
            assert(self.tables()[r].no_duplicates());
        }
        if self.free_list@.contains(a) {
            let k = choose|k: int| 0 <= k < self.free_list@.len() && self.free_list@[k] == a;
            assert(self.pages@[self.free_list@[k] as int] == PageState::Free);
        }
    }

    /// A pool of `num_pages` free pages. The lowest pages are taken first.
    pub fn new(num_pages: usize, num_kv_heads: usize, head_dim: usize) -> (m: PagedAttentionManager)
        ensures
            m.sound(),
            num_pages <= u32::MAX ==> m.complete(),
            m.pages@ == Seq::new(num_pages as nat, |i: int| PageState::Free),
            m.free_list@ == Seq::new(
                (num_pages as u32) as nat,
                |i: int| ((num_pages as u32) - 1 - i) as u32,
            ),
            m.tables() == Map::<RequestId, Seq<PhysicalBlockId>>::empty(),
            m.head_dim == head_dim,
            m.num_kv_heads == num_kv_heads,
            m.stats == (PagedAttentionStats {
                total_pages: num_pages,
                free_pages: num_pages,
                allocations: 0,
                deallocations: 0,
                page_faults: 0,
                cow_copies: 0,
            }),
    {
        let count: u32 = num_pages as u32;
        let mut free_list: Vec<PhysicalBlockId> = Vec::new();
        let mut next: u32 = count;
        while next > 0
            invariant
                next <= count,
                free_list@ == Seq::new((count - next) as nat, |i: int| (count - 1 - i) as u32),
            decreases next,
        {
            next = next - 1;
            free_list.push(next);
            assert(free_list@ =~= Seq::new((count - next) as nat, |i: int| (count - 1 - i) as u32));
        }
        let pages: Vec<PageState> = vec![PageState::Free; num_pages];
        let mut stats = PagedAttentionStats::default();
        stats.total_pages = num_pages;
        stats.free_pages = num_pages;
        let m = PagedAttentionManager {
            pages,
            free_list,
            block_tables: HashMap::new(),
            head_dim,
            num_kv_heads,
            stats,
        };
        proof {
            assert(m.pages@ =~= Seq::new(num_pages as nat, |i: int| PageState::Free));
            assert(m.tables() =~= Map::<RequestId, Seq<PhysicalBlockId>>::empty());
            assert(count <= num_pages);
            assert(m.tables().dom() =~= Set::<RequestId>::empty());
        }
        m
    }

    /// Gives a request an empty block table. Pages that it already had are not
    /// given back.
    pub fn register_request(&mut self, request_id: RequestId)
        requires
            old(self).valid(),
        ensures
            final(self).valid(),
            old(self).sound() ==> final(self).sound(),
            old(self).complete() && old(self).table_or_empty(request_id).len() == 0 ==> final(self).complete(),
            final(self).tables() == old(self).tables().insert(request_id, Seq::empty()),
            final(self).pages == old(self).pages,
            final(self).free_list == old(self).free_list,
            final(self).head_dim == old(self).head_dim,
            final(self).num_kv_heads == old(self).num_kv_heads,
            final(self).stats == old(self).stats,
    {
        let ghost before = *self;
        let table = BlockTable::default();
        let ghost t = table;
        self.block_tables.insert(request_id, table);
        proof {
            assert(t.mapping@ =~= Seq::<u32>::empty());
            assert(self.tables() =~= before.tables().insert(request_id, Seq::empty()));
            before.tables_are_finite();
            held_with(before.tables(), request_id, Seq::empty());
        }
    }

    /// The request's table; an empty one where it has none.
    pub open spec fn table_or_empty(&self, request_id: RequestId) -> Seq<PhysicalBlockId> {
        if self.tables().contains_key(request_id) {
            self.tables()[request_id]
        } else {
            Seq::empty()
        }
    }

    /// Gives a request enough pages for `num_new_tokens` more tokens. Fails
    /// where there are not enough free pages, and then takes none; the request
    /// has a table either way.
    pub fn allocate_tokens(&mut self, request_id: RequestId, num_new_tokens: usize) -> (r: Result<
        (),
        String,
    >)
        requires
            old(self).valid(),
            old(self).table_or_empty(request_id).len() * PAGE_SIZE + num_new_tokens <= usize::MAX,
            pages_for(num_new_tokens as nat) <= old(self).free_list@.len() ==> old(
                self,
            ).stats.allocations + pages_for(num_new_tokens as nat) <= u64::MAX,
        ensures
            final(self).valid(),
            old(self).sound() ==> final(self).sound(),
            old(self).complete() ==> final(self).complete(),
            final(self).head_dim == old(self).head_dim,
            final(self).num_kv_heads == old(self).num_kv_heads,
            ({
                let need = pages_for(num_new_tokens as nat);
                let had = old(self).table_or_empty(request_id);
                match r {
                    Err(m) => {
                        &&& need > old(self).free_list@.len()
                        &&& m@ == "KV-cache cheio: "@ + dec(need) + " páginas necessárias, "@ + dec(
                            old(self).free_list@.len(),
                        ) + " disponíveis"@
                        &&& final(self).tables() == old(self).tables().insert(request_id, had)
                        &&& final(self).pages == old(self).pages
                        &&& final(self).free_list == old(self).free_list
                        &&& final(self).stats == old(self).stats
                    },
                    Ok(_) => {
                        let ids = taken_from(old(self).free_list@, need);
                        &&& need <= old(self).free_list@.len()
                        &&& final(self).tables() == old(self).tables().insert(request_id, had + ids)
                        &&& final(self).free_list@ == old(self).free_list@.take(
                            old(self).free_list@.len() - need,
                        )
                        &&& final(self).pages@ == assigned(old(self).pages@, ids, request_id)
                        &&& final(self).stats == (PagedAttentionStats {
                            free_pages: (old(self).stats.free_pages - need) as usize,
                            allocations: (old(self).stats.allocations + need) as u64,
                            ..old(self).stats
                        })
                    },
                }
            }),
    {
        let ghost before = *self;
        let ghost had = self.table_or_empty(request_id);
        let mut table = match self.block_tables.remove(&request_id) {
            Some(t) => t,
            None => BlockTable::default(),
        };
        assert(table.mapping@ =~= had);
        let whole: usize = num_new_tokens / PAGE_SIZE;
        let need: usize = if num_new_tokens % PAGE_SIZE == 0 {
            whole
        } else {
            whole + 1
        };
        assert(need == pages_for(num_new_tokens as nat));
        proof {
            before.tables_are_finite();
            held_with(before.tables(), request_id, had);
        }
        if need > self.free_list.len() {
            let mut m = "KV-cache cheio: ".to_string();
            push_dec(&mut m, need as u64);
            m.append(" páginas necessárias, ");
            push_dec(&mut m, self.free_list.len() as u64);
            m.append(" disponíveis");
            self.block_tables.insert(request_id, table);
            proof {
                assert(self.tables() =~= before.tables().insert(request_id, had));
                self.keeps_tables(before, request_id);
            }
            return Err(m);
        }
        let ghost ids = taken_from(before.free_list@, need as nat);
        let ghost n0 = before.free_list@.len();
        let mut k: usize = 0;
        while k < need
            invariant
                k <= need <= n0,
                n0 == before.free_list@.len(),
                before.valid(),
                ids == taken_from(before.free_list@, need as nat),
                before.stats.allocations + need <= u64::MAX,
                self.free_list@ == before.free_list@.take(n0 - k),
                self.pages@ == assigned(before.pages@, ids.take(k as int), request_id),
                table.mapping@ == had + ids.take(k as int),
                self.block_tables@ == before.block_tables@.remove(request_id),
                self.head_dim == before.head_dim,
                self.num_kv_heads == before.num_kv_heads,
                self.stats == (PagedAttentionStats {
                    free_pages: (before.stats.free_pages - k) as usize,
                    allocations: (before.stats.allocations + k) as u64,
                    ..before.stats
                }),
            decreases need - k,
        {
            match self.free_list.pop() {
                Some(phys) => {
                    assert(phys == before.free_list@[n0 - 1 - k]);
                    assert(phys == ids[k as int]);
                    let state = PageState::Allocated { request_id, tokens_used: 0 };
                    self.pages.set(phys as usize, state);
                    table.mapping.push(phys);
                    self.stats.free_pages = self.stats.free_pages - 1;
                    self.stats.allocations = self.stats.allocations + 1;
                    proof {
                        let more = ids.take(k + 1);
                        assert(more =~= ids.take(k as int).push(phys));
                        assert(table.mapping@ =~= had + more);
                        assert(self.free_list@ =~= before.free_list@.take(n0 - (k + 1)));
                        assert(self.pages@ =~= assigned(before.pages@, more, request_id)) by {
                            assert forall|p: int| 0 <= p < before.pages@.len() implies self.pages@[p]
                                == assigned(before.pages@, more, request_id)[p] by {
                                if p <= u32::MAX {
                                    if ids.take(k as int).contains(p as u32) {
                                        let a = choose|a: int|
                                            0 <= a < k && ids.take(k as int)[a] == p as u32;
                                        assert(more[a] == p as u32);
                                    }
                                    if more.contains(p as u32) && p != phys {
                                        let a = choose|a: int|
                                            0 <= a < k + 1 && more[a] == p as u32;
                                        assert(ids.take(k as int)[a] == p as u32);
                                    }
                                    if p == phys {
                                        assert(more[k as int] == p as u32);
                                    }
                                }
                            }
                        }
                    }
                },
                None => {},
            }
            k = k + 1;
        }
        assert(ids.take(need as int) =~= ids);
        self.block_tables.insert(request_id, table);
        proof {
            held_with(before.tables(), request_id, had + ids);
            assert(self.tables() =~= before.tables().insert(request_id, had + ids));
            assert forall|r: RequestId, i: int|
                self.tables().contains_key(r) && 0 <= i < self.tables()[r].len() implies (
            #[trigger] self.tables()[r][i]) < self.pages@.len() by {
                if r == request_id {
                    if i < had.len() {
                        assert(before.tables()[r][i] < before.pages@.len());
                    } else {
                        assert(ids[i - had.len()] == before.free_list@[n0 - 1 - (i - had.len())]);
                    }
                } else {
                    assert(before.tables()[r][i] < before.pages@.len());
                }
            }
            assert forall|i: int| 0 <= i < self.free_list@.len() implies (
            #[trigger] self.free_list@[i]) < self.pages@.len() by {
                assert(self.free_list@[i] == before.free_list@[i]);
            }
            if before.sound() {
                self.sound_after_allocation(before, request_id, need as nat);
            }
        }
        Ok(())
    }

    proof fn keeps_tables(&self, before: PagedAttentionManager, request_id: RequestId)
        requires
            before.valid(),
            self.pages == before.pages,
            self.free_list == before.free_list,
            self.stats == before.stats,
            self.tables() == before.tables().insert(request_id, before.table_or_empty(request_id)),
        ensures
            self.valid(),
            before.sound() ==> self.sound(),
    {
        assert forall|r: RequestId, i: int|
            self.tables().contains_key(r) && 0 <= i < self.tables()[r].len() implies (
        #[trigger] self.tables()[r][i]) < self.pages@.len() by {
            assert(self.tables()[r][i] == before.tables()[r][i]);
        }
        if before.sound() {
            assert forall|r: RequestId, i: int|
                self.tables().contains_key(r) && 0 <= i < self.tables()[r].len() implies (
            self.pages@[#[trigger] self.tables()[r][i] as int] matches PageState::Allocated {
                request_id: o,
                ..
            } && o == r) by {
                assert(self.tables()[r][i] == before.tables()[r][i]);
            }
            assert forall|r: RequestId| #[trigger]
                self.tables().contains_key(r) implies self.tables()[r].no_duplicates() by {
                if before.tables().contains_key(r) {
                    assert(before.tables()[r].no_duplicates());
                }
            }
        }
    }

    proof fn sound_after_allocation(
        &self,
        before: PagedAttentionManager,
        request_id: RequestId,
        need: nat,
    )
        requires
            before.sound(),
            self.valid(),
            need <= before.free_list@.len(),
            self.free_list@ == before.free_list@.take(before.free_list@.len() - need),
            self.pages@ == assigned(
                before.pages@,
                taken_from(before.free_list@, need),
                request_id,
            ),
            self.tables() == before.tables().insert(
                request_id,
                before.table_or_empty(request_id) + taken_from(before.free_list@, need),
            ),
        ensures
            self.sound(),
    {
        let ids = taken_from(before.free_list@, need);
        let n0 = before.free_list@.len();
        let had = before.table_or_empty(request_id);
        let fl = before.free_list@;
        assert forall|i: int| 0 <= i < self.free_list@.len() implies self.pages@[
        #[trigger] self.free_list@[i] as int] == PageState::Free by {
            let p = self.free_list@[i];
            assert(p == fl[i]);
            if ids.contains(p) {
                let a = choose|a: int| 0 <= a < ids.len() && ids[a] == p;
                assert(fl[n0 - 1 - a] == p);
            }
        }
        assert forall|r: RequestId| #[trigger] self.tables().contains_key(
            r,
        ) implies self.tables()[r].no_duplicates() by {
            if r == request_id {
                let t = had + ids;
                assert forall|i: int, j: int| 0 <= i < j < t.len() implies t[i] != t[j] by {
                    if j < had.len() {
                        assert(had.no_duplicates());
                    } else {
                        assert(t[j] == fl[n0 - 1 - (j - had.len())]);
                        if i < had.len() {
                            before.requests_are_isolated(request_id, i, request_id, i);
                        } else {
                            assert(t[i] == fl[n0 - 1 - (i - had.len())]);
                        }
                    }
                }
            } else {
                assert(before.tables()[r].no_duplicates());
            }
        }
        assert forall|r: RequestId, i: int|
            self.tables().contains_key(r) && 0 <= i < self.tables()[r].len() implies (
        self.pages@[#[trigger] self.tables()[r][i] as int] matches PageState::Allocated {
            request_id: o,
            ..
        } && o == r) by {
            let p = self.tables()[r][i];
            if r == request_id && i >= had.len() {
                assert(ids[i - had.len()] == p);
                assert(ids.contains(p));
            } else {
                assert(before.tables()[r][i] == p);
                assert(before.pages@[p as int] matches PageState::Allocated { request_id: o, .. }
                    && o == r);
                if ids.contains(p) {
                    let a = choose|a: int| 0 <= a < ids.len() && ids[a] == p;
                    assert(fl[n0 - 1 - a] == p);
                    assert(before.pages@[fl[n0 - 1 - a] as int] == PageState::Free);
                }
            }
        }
    }

    /// Puts pages that are in use behind the pages of a request, which shares them
    /// from now on. Where one of them is not in use, it does nothing.
    pub fn share_pages(&mut self, request_id: RequestId, ids: &Vec<PhysicalBlockId>) -> (done: bool)
        requires
            old(self).valid(),
        ensures
            final(self).valid(),
            done == shareable(old(self).pages@, ids@),
            !done ==> *final(self) == *old(self),
            done ==> {
                &&& final(self).pages@ == shared(old(self).pages@, ids@)
                &&& final(self).tables() == old(self).tables().insert(
                    request_id,
                    old(self).table_or_empty(request_id) + ids@,
                )
                &&& final(self).free_list == old(self).free_list
                &&& final(self).stats == old(self).stats
                &&& final(self).head_dim == old(self).head_dim
                &&& final(self).num_kv_heads == old(self).num_kv_heads
            },
    {
        let ghost before = *self;
        let ghost had = self.table_or_empty(request_id);
        if ids.len() > 0x7fff_ffff {
            return false;
        }
        let mut i: usize = 0;
        while i < ids.len()
            invariant
                *self == before,
                before == *old(self),
                before.valid(),
                i <= ids@.len() <= 0x7fff_ffff,
                shareable(before.pages@, ids@.take(i as int)),
            decreases ids@.len() - i,
        {
            let id: u32 = ids[i];
            let ghost part = ids@.take(i + 1);
            assert(part[i as int] == id);
            if id as usize >= self.pages.len() {
                assert(!shareable(before.pages@, ids@)) by {
                    assert(ids@[i as int] >= before.pages@.len());
                }
                return false;
            }
            let fine: bool = match self.pages[id as usize] {
                PageState::Free => false,
                PageState::Allocated { .. } => true,
                PageState::Shared { ref_count, .. } => ref_count <= 0x7fff_0000,
            };
            if !fine {
                assert(!shareable(before.pages@, ids@)) by {
                    assert(ids@[i as int] == id);
                }
                return false;
            }
            assert forall|k: int| 0 <= k < part.len() implies (#[trigger] part[k])
                < before.pages@.len() && match before.pages@[part[k] as int] {
                PageState::Free => false,
                PageState::Allocated { .. } => true,
                PageState::Shared { ref_count, .. } => ref_count <= 0x7fff_0000,
            } by {
                if k < i {
                    assert(ids@.take(i as int)[k] == part[k]);
                }
            }
            i = i + 1;
        }
        assert(ids@.take(i as int) =~= ids@);
        let mut table = match self.block_tables.remove(&request_id) {
            Some(t) => t,
            None => BlockTable::default(),
        };
        assert(table.mapping@ =~= had);
        assert(ids@.take(0) =~= Seq::<u32>::empty());
        assert(had + ids@.take(0) =~= had);
        let mut k: usize = 0;
        while k < ids.len()
            invariant
                k <= ids@.len() <= 0x7fff_ffff,
                shareable(before.pages@, ids@),
                self.pages@.len() == before.pages@.len(),
                self.pages@ == shared(before.pages@, ids@.take(k as int)),
                forall|j: int|
                    0 <= j < ids@.len() ==> match self.pages@[(#[trigger] ids@[j]) as int] {
                        PageState::Free => false,
                        PageState::Allocated { .. } => true,
                        PageState::Shared { ref_count, .. } => ref_count <= 0x7fff_0002 + k,
                    },
                table.mapping@ == had + ids@.take(k as int),
                self.block_tables@ == before.block_tables@.remove(request_id),
                self.free_list == before.free_list,
                self.stats == before.stats,
                self.head_dim == before.head_dim,
                self.num_kv_heads == before.num_kv_heads,
            decreases ids@.len() - k,
        {
            let id: u32 = ids[k];
            proof {
                assert(ids@[k as int] < before.pages@.len());
                assert(ids@.take(k + 1).drop_last() =~= ids@.take(k as int));
                assert(ids@.take(k + 1).last() == id);
            }
            let ghost now = self.pages@;
            match self.pages[id as usize] {
                PageState::Free => {},
                PageState::Allocated { request_id: owner, .. } => {
                    self.pages.set(id as usize, PageState::Shared { ref_count: 2, owner });
                },
                PageState::Shared { ref_count, owner } => {
                    self.pages.set(
                        id as usize,
                        PageState::Shared { ref_count: ref_count + 1, owner },
                    );
                },
            }
            table.mapping.push(id);
            k = k + 1;
            proof {
                assert(table.mapping@ =~= had + ids@.take(k as int));
                assert forall|j: int| 0 <= j < ids@.len() implies match self.pages@[
                (#[trigger] ids@[j]) as int] {
                    PageState::Free => false,
                    PageState::Allocated { .. } => true,
                    PageState::Shared { ref_count, .. } => ref_count <= 0x7fff_0002 + k,
                } by {
                    if ids@[j] != id {
                        assert(self.pages@[ids@[j] as int] == now[ids@[j] as int]);
                    }
                }
            }
        }
        assert(ids@.take(k as int) =~= ids@);
        self.block_tables.insert(request_id, table);
        proof {
            assert(self.tables() =~= before.tables().insert(request_id, had + ids@));
            assert forall|r: RequestId, j: int|
                self.tables().contains_key(r) && 0 <= j < self.tables()[r].len() implies (
            #[trigger] self.tables()[r][j]) < self.pages@.len() by {
                if r == request_id && j >= had.len() {
                    assert(ids@[j - had.len()] < before.pages@.len());
                } else {
                    assert(self.tables()[r][j] == before.tables()[r][j]);
                }
            }
        }
        true
    }

    /// Takes a request out and lets go of its pages.
    pub fn free_request(&mut self, request_id: RequestId)
        requires
            old(self).valid(),
            old(self).stats.free_pages + old(self).table_or_empty(request_id).len() <= usize::MAX,
            old(self).stats.deallocations + old(self).table_or_empty(request_id).len() <= u64::MAX,
        ensures
            final(self).valid(),
            final(self).head_dim == old(self).head_dim,
            final(self).num_kv_heads == old(self).num_kv_heads,
            ({
                let ids = old(self).table_or_empty(request_id);
                let (pages, free) = released(old(self).pages@, old(self).free_list@, ids);
                let freed = free.len() - old(self).free_list@.len();
                &&& final(self).tables() == old(self).tables().remove(request_id)
                &&& final(self).pages@ == pages
                &&& final(self).free_list@ == free
                &&& final(self).stats == (PagedAttentionStats {
                    free_pages: (old(self).stats.free_pages + freed) as usize,
                    deallocations: (old(self).stats.deallocations + freed) as u64,
                    ..old(self).stats
                })
            }),
            old(self).sound() ==> final(self).sound() && final(self).free_list@ == old(
                self,
            ).free_list@ + old(self).table_or_empty(request_id),
            old(self).sound() && old(self).complete() ==> final(self).complete(),
    {
        let ghost before = *self;
        let ghost ids = self.table_or_empty(request_id);
        match self.block_tables.remove(&request_id) {
            Some(table) => {
                assert(table.mapping@ =~= ids);
                let mut i: usize = 0;
                assert(ids.take(0) =~= Seq::<u32>::empty());
                while i < table.mapping.len()
                    invariant
                        i <= ids.len(),
                        before.valid(),
                        ids == before.table_or_empty(request_id),
                        before.tables().contains_key(request_id),
                        table.mapping@ == ids,
                        before.stats.free_pages + ids.len() <= usize::MAX,
                        before.stats.deallocations + ids.len() <= u64::MAX,
                        self.block_tables@ == before.block_tables@.remove(request_id),
                        self.head_dim == before.head_dim,
                        self.num_kv_heads == before.num_kv_heads,
                        self.pages@.len() == before.pages@.len(),
                        (self.pages@, self.free_list@) == released(
                            before.pages@,
                            before.free_list@,
                            ids.take(i as int),
                        ),
                        before.free_list@.len() <= self.free_list@.len() <= before.free_list@.len()
                            + i,
                        forall|k: int|
                            0 <= k < self.free_list@.len() ==> (#[trigger] self.free_list@[k])
                                < self.pages@.len(),
                        self.stats == (PagedAttentionStats {
                            free_pages: (before.stats.free_pages + (self.free_list@.len()
                                - before.free_list@.len())) as usize,
                            deallocations: (before.stats.deallocations + (self.free_list@.len()
                                - before.free_list@.len())) as u64,
                            ..before.stats
                        }),
                    decreases ids.len() - i,
                {
                    let phys: u32 = table.mapping[i];
                    proof {
                        assert(before.tables()[request_id][i as int] < before.pages@.len());
                        assert(ids.take(i + 1).drop_last() =~= ids.take(i as int));
                        assert(ids.take(i + 1).last() == phys);
                    }
                    let state = self.pages[phys as usize];
                    let kept: Option<PageState> = match state {
                        PageState::Shared { ref_count, owner } => {
                            if ref_count > 1 {
                                Some(PageState::Shared { ref_count: ref_count - 1, owner })
                            } else {
                                None
                            }
                        },
                        _ => None,
                    };
                    match kept {
                        Some(next) => {
                            self.pages.set(phys as usize, next);
                        },
                        None => {
                            self.pages.set(phys as usize, PageState::Free);
                            self.free_list.push(phys);
                            self.stats.free_pages = self.stats.free_pages + 1;
                            self.stats.deallocations = self.stats.deallocations + 1;
                        },
                    }
                    i = i + 1;
                }
                assert(ids.take(ids.len() as int) =~= ids);
            },
            None => {
                assert(ids =~= Seq::<u32>::empty());
            },
        }
        proof {
            assert(self.tables() =~= before.tables().remove(request_id));
            assert forall|r: RequestId, k: int|
                self.tables().contains_key(r) && 0 <= k < self.tables()[r].len() implies (
            #[trigger] self.tables()[r][k]) < self.pages@.len() by {
                assert(self.tables()[r][k] == before.tables()[r][k]);
            }
            if before.sound() {
                self.sound_after_release(before, request_id);
                before.tables_are_finite();
                if before.tables().contains_key(request_id) {
                    held_without(before.tables(), request_id);
                } else {
                    assert(self.tables() =~= before.tables());
                }
            }
        }
    }

    proof fn sound_after_release(&self, before: PagedAttentionManager, request_id: RequestId)
        requires
            before.sound(),
            self.valid(),
            (self.pages@, self.free_list@) == released(
                before.pages@,
                before.free_list@,
                before.table_or_empty(request_id),
            ),
            self.tables() == before.tables().remove(request_id),
        ensures
            self.sound(),
            self.free_list@ == before.free_list@ + before.table_or_empty(request_id),
    {
        let ids = before.table_or_empty(request_id);
        let fl = before.free_list@;
        assert forall|i: int| 0 <= i < ids.len() implies (#[trigger] ids[i]) < before.pages@.len()
            && !stays_shared(before.pages@[ids[i] as int]) by {
            assert(before.tables()[request_id][i] == ids[i]);
        }
        release_frees_exclusive_pages(before.pages@, fl, ids);
        let now = fl + ids;
        assert(now.no_duplicates()) by {
            assert forall|i: int, j: int| 0 <= i < j < now.len() implies now[i] != now[j] by {
                if j >= fl.len() {
                    if i < fl.len() {
                        before.requests_are_isolated(
                            request_id,
                            j - fl.len(),
                            request_id,
                            j - fl.len(),
                        );
                    } else {
                        assert(ids.no_duplicates());
                    }
                }
            }
        }
        assert forall|i: int| 0 <= i < now.len() implies self.pages@[#[trigger] now[i] as int]
            == PageState::Free by {
            if i < fl.len() {
                assert(before.pages@[fl[i] as int] == PageState::Free);
            } else {
                assert(ids[i - fl.len()] == now[i]);
                assert(ids.contains(now[i]));
            }
        }
        assert forall|r: RequestId, i: int|
            self.tables().contains_key(r) && 0 <= i < self.tables()[r].len() implies (
        self.pages@[#[trigger] self.tables()[r][i] as int] matches PageState::Allocated {
            request_id: o,
            ..
        } && o == r) by {
            let p = self.tables()[r][i];
            assert(before.tables()[r][i] == p);
            if ids.contains(p) {
                let a = choose|a: int| 0 <= a < ids.len() && ids[a] == p;
                before.requests_are_isolated(r, i, request_id, a);
            }
        }
        assert forall|r: RequestId| #[trigger] self.tables().contains_key(
            r,
        ) implies self.tables()[r].no_duplicates() by {
            assert(before.tables()[r].no_duplicates());
        }
    }

    /// The block table of a request.
    pub fn get_block_table(&self, request_id: RequestId) -> (r: Option<&BlockTable>)
        ensures
            match r {
                Some(t) => self.tables().contains_key(request_id) && t.mapping@
                    == self.tables()[request_id],
                None => !self.tables().contains_key(request_id),
            },
    {
        self.block_tables.get(&request_id)
    }

    /// How many tokens a request has room for.
    pub fn allocated_tokens(&self, request_id: RequestId) -> (n: usize)
        requires
            self.table_or_empty(request_id).len() * PAGE_SIZE <= usize::MAX,
        ensures
            n == self.table_or_empty(request_id).len() * PAGE_SIZE,
    {
        match self.block_tables.get(&request_id) {
            Some(t) => t.mapping.len() * PAGE_SIZE,
            None => 0,
        }
    }

    /// How many pages are free.
    pub fn free_pages(&self) -> (n: usize)
        ensures
            n == self.free_list@.len(),
    {
        self.free_list.len()
    }

    /// What is in use, as text.
    pub fn report(&self) -> (s: String)
        requires
            self.free_list@.len() <= self.stats.total_pages,
            (self.stats.total_pages - self.free_list@.len()) * 100 <= usize::MAX,
        ensures
            s@ == self.report_text(),
    {
        let used: usize = self.stats.total_pages - self.free_list.len();
        let total: usize = if self.stats.total_pages == 0 {
            1
        } else {
            self.stats.total_pages
        };
        let pct: usize = used * 100 / total;
        let mut s = "PagedKV | ".to_string();
        push_dec(&mut s, used as u64);
        s.append("/");
        push_dec(&mut s, self.stats.total_pages as u64);
        s.append(" páginas (");
        push_dec(&mut s, pct as u64);
        s.append("%) | alloc=");
        push_dec(&mut s, self.stats.allocations);
        s.append(" free=");
        push_dec(&mut s, self.stats.deallocations);
        s.append(" | requests=");
        push_dec(&mut s, self.block_tables.len() as u64);
        s
    }

    /// What is in use, as text.
    pub open spec fn report_text(&self) -> Seq<char> {
        let used = (self.stats.total_pages - self.free_list@.len()) as nat;
        let total = if self.stats.total_pages == 0 {
            1nat
        } else {
            self.stats.total_pages as nat
        };
        "PagedKV | "@ + dec(used) + "/"@ + dec(self.stats.total_pages as nat) + " páginas ("@ + dec(
            used * 100 / total,
        ) + "%) | alloc="@ + dec(self.stats.allocations as nat) + " free="@ + dec(
            self.stats.deallocations as nat,
        ) + " | requests="@ + dec(self.block_tables@.len())
    }

    /// A page on which the request can write: the block's own page where it is
    /// exclusive, otherwise a fresh one that takes its place in the table.
    pub fn copy_on_write(&mut self, request_id: RequestId, logical_block: usize) -> (r: Result<
        PhysicalBlockId,
        String,
    >)
        requires
            old(self).valid(),
            old(self).stats.cow_copies < u64::MAX,
        ensures
            final(self).valid(),
            old(self).sound() ==> final(self).sound(),
            old(self).sound() && old(self).complete() ==> final(self).complete(),
            final(self).head_dim == old(self).head_dim,
            final(self).num_kv_heads == old(self).num_kv_heads,
            ({
                let table = old(self).table_or_empty(request_id);
                let known = logical_block < table.len();
                let page = table[logical_block as int];
                let own = old(self).pages@[page as int] matches PageState::Allocated {
                    request_id: o,
                    ..
                } && o == request_id;
                let free = old(self).free_list@;
                match r {
                    Err(m) => {
                        &&& *final(self) == *old(self)
                        &&& (!known && m@ == "Bloco lógico não encontrado"@) || (known && !own
                            && free.len() == 0 && m@ == "KV-cache cheio — sem páginas para CoW"@)
                    },
                    Ok(p) => {
                        &&& known
                        &&& own ==> p == page && *final(self) == *old(self)
                        &&& !own ==> {
                            &&& free.len() > 0
                            &&& p == free.last()
                            &&& final(self).free_list@ == free.drop_last()
                            &&& final(self).pages@ == old(self).pages@.update(
                                p as int,
                                PageState::Allocated { request_id, tokens_used: 0 },
                            )
                            &&& final(self).tables() == old(self).tables().insert(
                                request_id,
                                table.update(logical_block as int, p),
                            )
                            &&& final(self).stats == (PagedAttentionStats {
                                free_pages: (old(self).stats.free_pages - 1) as usize,
                                cow_copies: (old(self).stats.cow_copies + 1) as u64,
                                ..old(self).stats
                            })
                        }
                    },
                }
            }),
    {
        let ghost before = *self;
        let ghost table = self.table_or_empty(request_id);
        let old_phys: u32 = match self.block_tables.get(&request_id) {
            Some(t) => {
                if logical_block < t.mapping.len() {
                    t.mapping[logical_block]
                } else {
                    return Err("Bloco lógico não encontrado".to_string());
                }
            },
            None => {
                return Err("Bloco lógico não encontrado".to_string());
            },
        };
        assert(before.tables()[request_id][logical_block as int] == old_phys);
        let own: bool = match self.pages[old_phys as usize] {
            PageState::Allocated { request_id: o, .. } => o == request_id,
            _ => false,
        };
        if own {
            return Ok(old_phys);
        }
        assert(!before.sound());
        if self.free_list.len() == 0 {
            return Err("KV-cache cheio — sem páginas para CoW".to_string());
        }
        let new_phys: u32 = match self.free_list.pop() {
            Some(p) => p,
            None => 0,
        };
        assert(self.free_list@ =~= before.free_list@.drop_last());
        assert(new_phys == before.free_list@[before.free_list@.len() - 1]);
        self.pages.set(new_phys as usize, PageState::Allocated { request_id, tokens_used: 0 });
        self.stats.free_pages = self.stats.free_pages - 1;
        self.stats.cow_copies = self.stats.cow_copies + 1;
        match self.block_tables.remove(&request_id) {
            Some(mut t) => {
                t.mapping.set(logical_block, new_phys);
                self.block_tables.insert(request_id, t);
            },
            None => {},
        }
        proof {
            assert(self.tables() =~= before.tables().insert(
                request_id,
                table.update(logical_block as int, new_phys),
            ));
            assert forall|r: RequestId, i: int|
                self.tables().contains_key(r) && 0 <= i < self.tables()[r].len() implies (
            #[trigger] self.tables()[r][i]) < self.pages@.len() by {
                if r != request_id || i != logical_block {
                    assert(self.tables()[r][i] == before.tables()[r][i]);
                }
            }
            assert forall|i: int| 0 <= i < self.free_list@.len() implies (
            #[trigger] self.free_list@[i]) < self.pages@.len() by {
                assert(self.free_list@[i] == before.free_list@[i]);
            }
        }
        Ok(new_phys)
    }
}

/// A page that is shared stays until its last holder lets it go: each holder but the last
/// only takes one from the count, and the last one frees it.
pub proof fn shared_pages_outlive_a_holder(
    pages: Seq<PageState>,
    free: Seq<PhysicalBlockId>,
    id: PhysicalBlockId,
)
    requires
        id < pages.len(),
        pages[id as int] is Allocated,
    ensures
        ({
            let one = seq![id];
            let both = shared(pages, one);
            let (kept, still) = released(both, free, one);
            let (gone, last) = released(kept, still, one);
            &&& both[id as int] is Shared
            &&& kept[id as int] is Shared
            &&& still == free
            &&& gone[id as int] is Free
            &&& last == free.push(id)
            &&& forall|p: int|
                0 <= p < pages.len() && p != id ==> #[trigger] gone[p] == pages[p]
        }),
{
    let one = seq![id];
    assert(one.drop_last() =~= Seq::<PhysicalBlockId>::empty());
    assert(shared(pages, one.drop_last()) == pages);
    let both = shared(pages, one);
    assert(released(both, free, one.drop_last()) == (both, free));
    let (kept, still) = released(both, free, one);
    assert(released(kept, still, one.drop_last()) == (kept, still));
}

/// Pages are taken from the end of the free list, the last first, and what is left and what
/// is taken make up the list.
pub proof fn pages_come_from_the_free_list(free: Seq<PhysicalBlockId>, n: nat)
    requires
        n <= free.len(),
    ensures
        free == free.take(free.len() - n) + taken_from(free, n).reverse(),
{
    assert(free =~= free.take(free.len() - n) + taken_from(free, n).reverse());
}

} // verus!
