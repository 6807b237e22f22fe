//! Virtual video memory: pages live in video memory, main memory or on disk, and
//! move between these tiers under two budgets.

use std::collections::HashMap;
use vstd::prelude::*;

use crate::ranking::{
    is_ranking, rank_desc, ranking_exists, ranking_is_a_permutation, ranking_of,
};

verus! {

broadcast use vstd::std_specs::hash::group_hash_axioms;

/// Where a page is, fastest first.
#[derive(Debug, Clone, Copy, PartialEq, Eq, PartialOrd, Ord, Structural)]
pub enum MemoryTier {
    Vram,
    Ram,
    Ssd,
}

impl MemoryTier {
    /// How slow a tier is.
    pub open spec fn level(self) -> int {
        match self {
            MemoryTier::Vram => 0,
            MemoryTier::Ram => 1,
            MemoryTier::Ssd => 2,
        }
    }

    fn level_of(self) -> (n: u8)
        ensures
            n == self.level(),
    {
        match self {
            MemoryTier::Vram => 0,
            MemoryTier::Ram => 1,
            MemoryTier::Ssd => 2,
        }
    }
}

/// A page.
#[derive(Debug, Clone, Copy)]
pub struct VramPage {
    pub layer_id: u64,
    pub size_bytes: u64,
    pub current_tier: MemoryTier,
    pub last_access_epoch: u64,
    pub access_count: u64,
}

#[derive(Debug, Clone, Copy)]
pub struct VirtualVramStats {
    pub promotions: u64,
    pub demotions: u64,
    pub hits: u64,
    pub misses: u64,
    pub bytes_moved: u64,
}

impl Default for VirtualVramStats {
    fn default() -> (s: VirtualVramStats)
        ensures
            s == VirtualVramStats::zero(),
    {
        VirtualVramStats { promotions: 0, demotions: 0, hits: 0, misses: 0, bytes_moved: 0 }
    }
}

impl VirtualVramStats {
    /// Nothing counted yet.
    pub open spec fn zero() -> VirtualVramStats {
        VirtualVramStats { promotions: 0, demotions: 0, hits: 0, misses: 0, bytes_moved: 0 }
    }
}

#[derive(Debug, Clone, Copy, PartialEq, Eq, Structural)]
pub enum VramPageError {
    PageNotFound(u64),
    InsufficientMemory { needed: u64, freed: u64, tier: MemoryTier },
}

/// The pages by identifier.
pub type Pages = Map<u64, VramPage>;

/// The sum of `f` over the pages `ids`.
pub open spec fn total(ids: Seq<u64>, pages: Pages, f: spec_fn(VramPage) -> nat) -> nat
    decreases ids.len(),
{
    if ids.len() == 0 {
        0
    } else {
        total(ids.drop_last(), pages, f) + f(pages[ids.last()])
    }
}

/// The bytes of a page, as far as it is in `tier`.
pub open spec fn share_in(tier: MemoryTier) -> spec_fn(VramPage) -> nat {
    |p: VramPage|
        if p.current_tier == tier {
            p.size_bytes as nat
        } else {
            0nat
        }
}

/// The bytes of a page.
pub open spec fn size_of_page() -> spec_fn(VramPage) -> nat {
    |p: VramPage| p.size_bytes as nat
}

/// The bytes that the pages `ids` hold in `tier`.
pub open spec fn bytes_in(ids: Seq<u64>, pages: Pages, tier: MemoryTier) -> nat {
    total(ids, pages, share_in(tier))
}

/// The bytes of the pages `ids`.
pub open spec fn bytes_of(ids: Seq<u64>, pages: Pages) -> nat {
    total(ids, pages, size_of_page())
}

proof fn total_without(ids: Seq<u64>, pages: Pages, id: u64, p: VramPage, f: spec_fn(VramPage) -> nat)
    requires
        !ids.contains(id),
    ensures
        total(ids, pages.insert(id, p), f) == total(ids, pages, f),
    decreases ids.len(),
{
    if ids.len() > 0 {
        assert forall|x: u64| ids.drop_last().contains(x) implies ids.contains(x) by {
            let k = choose|k: int| 0 <= k < ids.drop_last().len() && ids.drop_last()[k] == x;
            assert(ids[k] == x);
        }
        total_without(ids.drop_last(), pages, id, p, f);
        assert(ids[ids.len() - 1] == ids.last());
    }
}

proof fn total_changes(ids: Seq<u64>, pages: Pages, id: u64, p: VramPage, f: spec_fn(VramPage) -> nat)
    requires
        ids.no_duplicates(),
        ids.contains(id),
    ensures
        total(ids, pages.insert(id, p), f) + f(pages[id]) == total(ids, pages, f) + f(p),
        f(pages[id]) <= total(ids, pages, f),
    decreases ids.len(),
{
    let rest = ids.drop_last();
    if ids.last() == id {
        assert(!rest.contains(id)) by {
            if rest.contains(id) {
                let k = choose|k: int| 0 <= k < rest.len() && rest[k] == id;
                assert(ids[k] == ids[ids.len() - 1]);
            }
        }
        total_without(rest, pages, id, p, f);
    } else {
        let k = choose|k: int| 0 <= k < ids.len() && ids[k] == id;
        assert(rest[k] == id);
        total_changes(rest, pages, id, p, f);
    }
}

/// The pages of `ids` that are in `tier`.
pub open spec fn members(ids: Seq<u64>, pages: Pages, tier: MemoryTier) -> Seq<u64>
    decreases ids.len(),
{
    if ids.len() == 0 {
        Seq::empty()
    } else {
        let before = members(ids.drop_last(), pages, tier);
        if pages[ids.last()].current_tier == tier {
            before.push(ids.last())
        } else {
            before
        }
    }
}

/// The keys by which pages are ranked for eviction: the older the last access,
/// the larger.
pub open spec fn age_keys(ids: Seq<u64>, pages: Pages) -> Seq<i128> {
    ids.map_values(|id: u64| (-(pages[id].last_access_epoch as int)) as i128)
}

/// The pages of a tier, least recently used first.
pub open spec fn lru(ids: Seq<u64>, pages: Pages, tier: MemoryTier) -> Seq<u64> {
    let m = members(ids, pages, tier);
    ranking_of(age_keys(m, pages)).map_values(|i: usize| m[i as int])
}

/// Pages and what is counted of them.
pub struct Tiers {
    pub pages: Pages,
    pub vram_used: int,
    pub ram_used: int,
    pub demotions: int,
    pub bytes_moved: int,
}

impl Tiers {
    /// Page `id` leaves `tier`: from video memory to main memory where it fits
    /// there, otherwise to disk.
    pub open spec fn demoted(self, id: u64, tier: MemoryTier, ram_budget: int) -> Tiers {
        let page = self.pages[id];
        let size = page.size_bytes as int;
        let to_ram = tier == MemoryTier::Vram && self.ram_used + size <= ram_budget;
        Tiers {
            pages: self.pages.insert(
                id,
                VramPage {
                    current_tier: if to_ram {
                        MemoryTier::Ram
                    } else {
                        MemoryTier::Ssd
                    },
                    ..page
                },
            ),
            vram_used: if tier == MemoryTier::Vram {
                self.vram_used - size
            } else {
                self.vram_used
            },
            ram_used: if to_ram {
                self.ram_used + size
            } else if tier == MemoryTier::Ram {
                self.ram_used - size
            } else {
                self.ram_used
            },
            demotions: self.demotions + 1,
            bytes_moved: self.bytes_moved + size,
        }
    }

    /// Pages of `order` leave `tier`, first to last, until `needed` bytes are
    /// free; with the number of bytes that were freed.
    pub open spec fn evicted(
        self,
        order: Seq<u64>,
        tier: MemoryTier,
        needed: int,
        ram_budget: int,
    ) -> (Tiers, int)
        decreases order.len(),
    {
        if order.len() == 0 || needed <= 0 {
            (self, 0)
        } else {
            let size = self.pages[order[0]].size_bytes as int;
            let (t, freed) = self.demoted(order[0], tier, ram_budget).evicted(
                order.skip(1),
                tier,
                needed - size,
                ram_budget,
            );
            (t, freed + size)
        }
    }
}

/// Pages in three tiers under two budgets.
pub struct VirtualVram {
    pub page_table: HashMap<u64, VramPage>,
    /// The identifiers of the pages, in the order in which they came.
    pub page_ids: Vec<u64>,
    pub vram_budget_bytes: u64,
    pub vram_used_bytes: u64,
    pub ram_budget_bytes: u64,
    pub ram_used_bytes: u64,
    pub stats: VirtualVramStats,
}

proof fn members_are(ids: Seq<u64>, pages: Pages, tier: MemoryTier)
    ensures
        forall|i: int|
            0 <= i < members(ids, pages, tier).len() ==> ids.contains(
                #[trigger] members(ids, pages, tier)[i],
            ) && pages[members(ids, pages, tier)[i]].current_tier == tier,
        ids.no_duplicates() ==> members(ids, pages, tier).no_duplicates(),
        members(ids, pages, tier).len() <= ids.len(),
    decreases ids.len(),
{
    if ids.len() > 0 {
        let rest = ids.drop_last();
        members_are(rest, pages, tier);
        let m = members(rest, pages, tier);
        let r = members(ids, pages, tier);
        assert forall|i: int| 0 <= i < r.len() implies ids.contains(#[trigger] r[i])
            && pages[r[i]].current_tier == tier by {
            if i < m.len() {
                assert(r[i] == m[i]);
                let k = choose|k: int| 0 <= k < rest.len() && rest[k] == m[i];
                assert(ids[k] == m[i]);
            } else {
                assert(ids[ids.len() - 1] == ids.last());
            }
        }
        if ids.no_duplicates() && r.len() > m.len() {
            assert forall|i: int, j: int| 0 <= i < j < r.len() implies r[i] != r[j] by {
                if j == m.len() {
                    assert(rest.contains(m[i]));
                    let k = choose|k: int| 0 <= k < rest.len() && rest[k] == m[i];
                    assert(ids[k] == r[i]);
                }
            }
        }
    }
}

/// What the eviction order holds: the pages of the tier, each once, and none
/// before one that was used less recently.
pub proof fn lru_is_by_last_access(ids: Seq<u64>, pages: Pages, tier: MemoryTier)
    requires
        ids.no_duplicates(),
        ids.len() <= usize::MAX,
    ensures
        lru(ids, pages, tier).no_duplicates(),
        lru(ids, pages, tier).len() == members(ids, pages, tier).len(),
        forall|i: int|
            0 <= i < lru(ids, pages, tier).len() ==> ids.contains(
                #[trigger] lru(ids, pages, tier)[i],
            ) && pages[lru(ids, pages, tier)[i]].current_tier == tier,
        forall|i: int, j: int|
            0 <= i < j < lru(ids, pages, tier).len() ==> pages[#[trigger] lru(
                ids,
                pages,
                tier,
            )[i]].last_access_epoch <= pages[#[trigger] lru(ids, pages, tier)[j]].last_access_epoch,
{
    members_are(ids, pages, tier);
    let m = members(ids, pages, tier);
    let keys = age_keys(m, pages);
    ranking_exists(keys);
    let order = ranking_of(keys);
    ranking_is_a_permutation(keys, order);
    let l = lru(ids, pages, tier);
    assert forall|i: int| 0 <= i < l.len() implies ids.contains(#[trigger] l[i])
        && pages[l[i]].current_tier == tier by {
        assert(0 <= order[i] < keys.len());
        assert(l[i] == m[order[i] as int]);
    }
    assert forall|i: int, j: int| 0 <= i < j < l.len() implies pages[
    #[trigger] l[i]].last_access_epoch <= pages[#[trigger] l[j]].last_access_epoch by {
        assert(crate::ranking::precedes(keys, order[i] as int, order[j] as int));
        assert(0 <= order[i] < keys.len() && 0 <= order[j] < keys.len());
        assert(keys[order[i] as int] == (-(pages[l[i]].last_access_epoch as int)) as i128);
        assert(keys[order[j] as int] == (-(pages[l[j]].last_access_epoch as int)) as i128);
    }
    assert(l.no_duplicates()) by {
        assert forall|i: int, j: int| 0 <= i < j < l.len() implies l[i] != l[j] by {
            assert(order[i] != order[j]);
            assert(0 <= order[i] < m.len() && 0 <= order[j] < m.len());
        }
    }
}

impl VirtualVram {
    /// Pages and what is counted of them.
    pub open spec fn tiers(&self) -> Tiers {
        Tiers {
            pages: self.page_table@,
            vram_used: self.vram_used_bytes as int,
            ram_used: self.ram_used_bytes as int,
            demotions: self.stats.demotions as int,
            bytes_moved: self.stats.bytes_moved as int,
        }
    }

    /// Every page is listed once, and each tier is charged for all of its pages.
    pub open spec fn wf(&self) -> bool {
        &&& self.page_ids@.no_duplicates()
        &&& forall|id: u64| #[trigger]
            self.page_table@.contains_key(id) <==> self.page_ids@.contains(id)
        &&& bytes_in(self.page_ids@, self.page_table@, MemoryTier::Vram) <= self.vram_used_bytes
        &&& bytes_in(self.page_ids@, self.page_table@, MemoryTier::Ram) <= self.ram_used_bytes
    }

    /// Each tier is charged for the bytes of its pages and for nothing else. This
    /// holds as long as no identifier is registered a second time.
    pub open spec fn exact(&self) -> bool {
        &&& self.vram_used_bytes == bytes_in(self.page_ids@, self.page_table@, MemoryTier::Vram)
        &&& self.ram_used_bytes == bytes_in(self.page_ids@, self.page_table@, MemoryTier::Ram)
    }

    /// Neither budget is exceeded.
    pub open spec fn within_budgets(&self) -> bool {
        self.vram_used_bytes <= self.vram_budget_bytes && self.ram_used_bytes
            <= self.ram_budget_bytes
    }

    /// The bytes are far enough from the limits of the machine to move every page
    /// twice.
    pub open spec fn movable(&self) -> bool {
        let all = bytes_of(self.page_ids@, self.page_table@);
        &&& self.vram_used_bytes + self.ram_used_bytes + all <= u64::MAX
        &&& self.stats.bytes_moved + 2 * all <= u64::MAX
        &&& self.stats.demotions + self.page_ids@.len() <= u64::MAX
    }

    /// The counters are far enough from the limits of the machine for one more
    /// request.
    pub open spec fn roomy(&self) -> bool {
        &&& self.movable()
        &&& self.stats.promotions < u64::MAX
        &&& self.stats.hits < u64::MAX
        &&& self.stats.misses < u64::MAX
    }

    /// No page, and two budgets.
    pub fn new(vram_budget_bytes: u64, ram_budget_bytes: u64) -> (v: VirtualVram)
        ensures
            v.wf(),
            v.exact(),
            v.within_budgets(),
            v.page_table@ == Pages::empty(),
            v.page_ids@ == Seq::<u64>::empty(),
            v.vram_budget_bytes == vram_budget_bytes,
            v.vram_used_bytes == 0,
            v.ram_budget_bytes == ram_budget_bytes,
            v.ram_used_bytes == 0,
            v.stats == VirtualVramStats::zero(),
    {
        VirtualVram {
            page_table: HashMap::new(),
            page_ids: Vec::new(),
            vram_budget_bytes,
            vram_used_bytes: 0,
            ram_budget_bytes,
            ram_used_bytes: 0,
            stats: VirtualVramStats::default(),
        }
    }

    /// Adds a page in `initial_tier`, or replaces the page of that identifier.
    /// The tier is charged for it either way; what a replaced page was charged
    /// for is not given back.
    pub fn register_page(&mut self, layer_id: u64, size_bytes: u64, initial_tier: MemoryTier)
        requires
            old(self).wf(),
            initial_tier == MemoryTier::Vram ==> old(self).vram_used_bytes + size_bytes
                <= u64::MAX,
            initial_tier == MemoryTier::Ram ==> old(self).ram_used_bytes + size_bytes <= u64::MAX,
        ensures
            final(self).wf(),
            old(self).exact() && !old(self).page_table@.contains_key(layer_id)
                ==> final(self).exact(),
            final(self).page_table@ == old(self).page_table@.insert(
                layer_id,
                VramPage {
                    layer_id,
                    size_bytes,
                    current_tier: initial_tier,
                    last_access_epoch: 0,
                    access_count: 0,
                },
            ),
            final(self).page_ids@ == if old(self).page_table@.contains_key(layer_id) {
                old(self).page_ids@
            } else {
                old(self).page_ids@.push(layer_id)
            },
            final(self).vram_used_bytes == old(self).vram_used_bytes + (if initial_tier
                == MemoryTier::Vram {
                size_bytes as int
            } else {
                0
            }),
            final(self).ram_used_bytes == old(self).ram_used_bytes + (if initial_tier
                == MemoryTier::Ram {
                size_bytes as int
            } else {
                0
            }),
            final(self).vram_budget_bytes == old(self).vram_budget_bytes,
            final(self).ram_budget_bytes == old(self).ram_budget_bytes,
            final(self).stats == old(self).stats,
    {
        let ghost before = *self;
        match initial_tier {
            MemoryTier::Vram => {
                self.vram_used_bytes = self.vram_used_bytes + size_bytes;
            },
            MemoryTier::Ram => {
                self.ram_used_bytes = self.ram_used_bytes + size_bytes;
            },
            MemoryTier::Ssd => {},
        }
        if !self.page_table.contains_key(&layer_id) {
            self.page_ids.push(layer_id);
        }
        let page = VramPage {
            layer_id,
            size_bytes,
            current_tier: initial_tier,
            last_access_epoch: 0,
            access_count: 0,
        };
        self.page_table.insert(layer_id, page);
        proof {
            let ids0 = before.page_ids@;
            let fv = share_in(MemoryTier::Vram);
            let fr = share_in(MemoryTier::Ram);
            if before.page_table@.contains_key(layer_id) {
                assert(ids0.contains(layer_id));
                total_changes(ids0, before.page_table@, layer_id, page, fv);
                total_changes(ids0, before.page_table@, layer_id, page, fr);
            } else {
                assert(!ids0.contains(layer_id));
                total_without(ids0, before.page_table@, layer_id, page, fv);
                total_without(ids0, before.page_table@, layer_id, page, fr);
                assert(self.page_ids@.drop_last() =~= ids0);
                assert(self.page_ids@.last() == layer_id);
                assert(self.page_ids@.no_duplicates());
                assert forall|id: u64| #[trigger]
                    self.page_table@.contains_key(id) <==> self.page_ids@.contains(id) by {
                    if self.page_ids@.contains(id) {
                        let k = choose|k: int|
                            0 <= k < self.page_ids@.len() && self.page_ids@[k] == id;
                        if k < ids0.len() {
                            assert(ids0[k] == id);
                            assert(ids0.contains(id));
                            assert(before.page_table@.contains_key(id));
                        }
                    }
                    if self.page_table@.contains_key(id) {
                        if id == layer_id {
                            assert(self.page_ids@[ids0.len() as int] == id);
                        } else {
                            assert(before.page_table@.contains_key(id));
                            let k = choose|k: int| 0 <= k < ids0.len() && ids0[k] == id;
                            assert(self.page_ids@[k] == id);
                        }
                    }
                }
            }
        }
    }

    /// Changes page `id` without changing its size, and keeps the books.
    proof fn books_after_move(
        &self,
        before: VirtualVram,
        id: u64,
        p: VramPage,
    )
        requires
            before.page_ids@.no_duplicates(),
            before.page_ids@.contains(id),
            forall|x: u64| #[trigger]
                before.page_table@.contains_key(x) <==> before.page_ids@.contains(x),
            self.page_ids@ == before.page_ids@,
            self.page_table@ == before.page_table@.insert(id, p),
            p.size_bytes == before.page_table@[id].size_bytes,
        ensures
            forall|x: u64| #[trigger]
                self.page_table@.contains_key(x) <==> self.page_ids@.contains(x),
            bytes_of(self.page_ids@, self.page_table@) == bytes_of(
                before.page_ids@,
                before.page_table@,
            ),
            forall|t: MemoryTier| #[trigger]
                bytes_in(self.page_ids@, self.page_table@, t) + share_in(t)(before.page_table@[id])
                    == bytes_in(before.page_ids@, before.page_table@, t) + share_in(t)(p),
            forall|t: MemoryTier| #[trigger]
                share_in(t)(before.page_table@[id]) <= bytes_in(
                    before.page_ids@,
                    before.page_table@,
                    t,
                ),
            p.size_bytes <= bytes_of(before.page_ids@, before.page_table@),
    {
        total_changes(before.page_ids@, before.page_table@, id, p, size_of_page());
        assert forall|t: MemoryTier| #[trigger]
            bytes_in(self.page_ids@, self.page_table@, t) + share_in(t)(before.page_table@[id])
                == bytes_in(before.page_ids@, before.page_table@, t) + share_in(t)(p) by {
            total_changes(before.page_ids@, before.page_table@, id, p, share_in(t));
        }
        assert forall|t: MemoryTier| #[trigger]
            share_in(t)(before.page_table@[id]) <= bytes_in(
                before.page_ids@,
                before.page_table@,
                t,
            ) by {
            total_changes(before.page_ids@, before.page_table@, id, p, share_in(t));
        }
    }

    /// The pages of a tier, least recently used first.
    fn lru_order(&self, tier: MemoryTier) -> (r: Vec<u64>)
        requires
            self.wf(),
        ensures
            r@ == lru(self.page_ids@, self.page_table@, tier),
    {
        let mut found: Vec<u64> = Vec::new();
        let mut keys: Vec<i128> = Vec::new();
        let ghost ids = self.page_ids@;
        let ghost pages = self.page_table@;
        let mut i: usize = 0;
        assert(ids.take(0) =~= Seq::<u64>::empty());
        assert(keys@ =~= age_keys(found@, pages));
        while i < self.page_ids.len()
            invariant
                self.wf(),
                ids == self.page_ids@,
                pages == self.page_table@,
                i <= ids.len(),
                found@ == members(ids.take(i as int), pages, tier),
                keys@ == age_keys(found@, pages),
            decreases ids.len() - i,
        {
            let id: u64 = self.page_ids[i];
            proof {
                assert(ids.take(i + 1).drop_last() =~= ids.take(i as int));
                assert(ids.take(i + 1).last() == id);
                assert(ids.contains(id));
                assert(pages.contains_key(id));
            }
            match self.page_table.get(&id) {
                Some(p) => {
                    if p.current_tier == tier {
                        found.push(id);
                        keys.push(-(p.last_access_epoch as i128));
                        assert(keys@ =~= age_keys(found@, pages));
                    }
                },
                None => {},
            }
            i = i + 1;
        }
        assert(ids.take(i as int) =~= ids);
        let order = rank_desc(&keys);
        let mut r: Vec<u64> = Vec::new();
        let mut k: usize = 0;
        while k < order.len()
            invariant
                k <= order@.len(),
                keys@.len() == found@.len(),
                is_ranking(keys@, order@),
                found@ == members(ids, pages, tier),
                order@ == ranking_of(age_keys(found@, pages)),
                r@ == lru(ids, pages, tier).take(k as int),
            decreases order@.len() - k,
        {
            assert(0 <= order@[k as int] < keys@.len());
            r.push(found[order[k]]);
            k = k + 1;
            assert(r@ =~= lru(ids, pages, tier).take(k as int));
        }
        assert(r@ =~= lru(ids, pages, tier));
        r
    }

    /// Moves the least recently used pages out of a tier until `needed` bytes
    /// are free. Fails where the tier does not hold as much; what was moved
    /// stays moved. Nothing leaves the disk.
    pub fn evict_from_tier(
        &mut self,
        tier: MemoryTier,
        needed: u64,
        _current_epoch: u64,
    ) -> (r: Result<(), VramPageError>)
        requires
            old(self).wf(),
            old(self).movable(),
        ensures
            final(self).wf(),
            old(self).exact() ==> final(self).exact(),
            final(self).page_ids == old(self).page_ids,
            final(self).vram_budget_bytes == old(self).vram_budget_bytes,
            final(self).ram_budget_bytes == old(self).ram_budget_bytes,
            final(self).stats.promotions == old(self).stats.promotions,
            final(self).stats.hits == old(self).stats.hits,
            final(self).stats.misses == old(self).stats.misses,
            tier == MemoryTier::Ssd ==> r is Ok && *final(self) == *old(self),
            tier != MemoryTier::Ssd ==> {
                let (t, freed) = old(self).tiers().evicted(
                    lru(old(self).page_ids@, old(self).page_table@, tier),
                    tier,
                    needed as int,
                    old(self).ram_budget_bytes as int,
                );
                &&& final(self).tiers() == t
                &&& 0 <= freed <= u64::MAX
                &&& r == if freed >= needed {
                    Ok::<(), VramPageError>(())
                } else {
                    Err(VramPageError::InsufficientMemory { needed, freed: freed as u64, tier })
                }
                &&& tier == MemoryTier::Vram ==> final(self).vram_used_bytes + freed == old(
                    self,
                ).vram_used_bytes
                &&& tier == MemoryTier::Ram ==> final(self).ram_used_bytes + freed == old(
                    self,
                ).ram_used_bytes && final(self).vram_used_bytes == old(self).vram_used_bytes
            },
            final(self).vram_used_bytes + final(self).ram_used_bytes <= old(self).vram_used_bytes
                + old(self).ram_used_bytes,
            bytes_of(final(self).page_ids@, final(self).page_table@) == bytes_of(
                old(self).page_ids@,
                old(self).page_table@,
            ),
            final(self).stats.bytes_moved <= old(self).stats.bytes_moved + bytes_of(
                old(self).page_ids@,
                old(self).page_table@,
            ),
            old(self).within_budgets() ==> final(self).within_budgets(),
            forall|id: u64| #[trigger]
                final(self).page_table@.contains_key(id) == old(self).page_table@.contains_key(id),
            forall|id: u64|
                old(self).page_table@.contains_key(id) && old(self).page_table@[id].current_tier
                    != tier ==> #[trigger] final(self).page_table@[id] == old(
                    self,
                ).page_table@[id],
    {
        if tier == MemoryTier::Ssd {
            return Ok(());
        }
        let order = self.lru_order(tier);
        let ghost before = *self;
        let ghost all = bytes_of(self.page_ids@, self.page_table@);
        let ghost want = self.tiers().evicted(
            order@,
            tier,
            needed as int,
            self.ram_budget_bytes as int,
        );
        proof {
            assert(self.page_ids.len() == self.page_ids@.len());
            bytes_in_part(self.page_ids@, self.page_table@, tier);
            lru_is_by_last_access(self.page_ids@, self.page_table@, tier);
            assert(order@.skip(0) =~= order@);
            members_are(self.page_ids@, self.page_table@, tier);
        }
        let mut freed: u64 = 0;
        let mut i: usize = 0;
        while i < order.len() && freed < needed
            invariant
                i <= order@.len(),
                order@.len() <= before.page_ids@.len(),
                tier != MemoryTier::Ssd,
                before.wf(),
                before.movable(),
                self.wf(),
                before.exact() ==> self.exact(),
                all == bytes_of(before.page_ids@, before.page_table@),
                all == bytes_of(self.page_ids@, self.page_table@),
                self.page_ids == before.page_ids,
                self.vram_budget_bytes == before.vram_budget_bytes,
                self.ram_budget_bytes == before.ram_budget_bytes,
                self.stats.promotions == before.stats.promotions,
                self.stats.hits == before.stats.hits,
                self.stats.misses == before.stats.misses,
                self.stats.demotions == before.stats.demotions + i,
                self.stats.bytes_moved == before.stats.bytes_moved + freed,
                order@.no_duplicates(),
                forall|k: int|
                    0 <= k < order@.len() ==> before.page_ids@.contains(#[trigger] order@[k]),
                forall|k: int|
                    i <= k < order@.len() ==> self.page_table@[#[trigger] order@[k]].current_tier
                        == tier,
                freed + bytes_in(self.page_ids@, self.page_table@, tier) <= all,
                want.0 == self.tiers().evicted(
                    order@.skip(i as int),
                    tier,
                    needed - freed,
                    self.ram_budget_bytes as int,
                ).0,
                want.1 == freed + self.tiers().evicted(
                    order@.skip(i as int),
                    tier,
                    needed - freed,
                    self.ram_budget_bytes as int,
                ).1,
                tier == MemoryTier::Vram ==> self.vram_used_bytes + freed
                    == before.vram_used_bytes,
                tier == MemoryTier::Ram ==> self.ram_used_bytes + freed == before.ram_used_bytes
                    && self.vram_used_bytes == before.vram_used_bytes,
                self.vram_used_bytes + self.ram_used_bytes <= before.vram_used_bytes
                    + before.ram_used_bytes,
                before.within_budgets() ==> self.within_budgets(),
                forall|id: u64| #[trigger]
                    self.page_table@.contains_key(id) == before.page_table@.contains_key(id),
                forall|id: u64|
                    before.page_table@.contains_key(id) && before.page_table@[id].current_tier
                        != tier ==> #[trigger] self.page_table@[id] == before.page_table@[id],
                forall|k: int|
                    0 <= k < order@.len() ==> before.page_table@[
                        #[trigger] order@[k]].current_tier == tier,
            decreases order@.len() - i,
        {
            let id: u64 = order[i];
            let ghost st = *self;
            let ghost rest = order@.skip(i as int);
            assert(rest.skip(1) =~= order@.skip(i + 1));
            assert(rest[0] == id);
            assert(self.page_ids@.contains(id));
            assert(self.page_table@.contains_key(id));
            match self.page_table.get(&id) {
                Some(found) => {
                    let page = *found;
                    let size: u64 = page.size_bytes;
                    proof {
                        total_changes(
                            self.page_ids@,
                            self.page_table@,
                            id,
                            page,
                            size_of_page(),
                        );
                        total_changes(
                            self.page_ids@,
                            self.page_table@,
                            id,
                            page,
                            share_in(tier),
                        );
                        bytes_in_part(self.page_ids@, self.page_table@, tier);
                    }
                    let to_ram: bool = tier == MemoryTier::Vram && self.ram_used_bytes + size
                        <= self.ram_budget_bytes;
                    let target = if to_ram {
                        MemoryTier::Ram
                    } else {
                        MemoryTier::Ssd
                    };
                    if tier == MemoryTier::Vram {
                        self.vram_used_bytes = self.vram_used_bytes - size;
                    } else {
                        self.ram_used_bytes = self.ram_used_bytes - size;
                    }
                    if to_ram {
                        self.ram_used_bytes = self.ram_used_bytes + size;
                    }
                    let moved = VramPage { current_tier: target, ..page };
                    self.page_table.insert(id, moved);
                    self.stats.demotions = self.stats.demotions + 1;
                    self.stats.bytes_moved = self.stats.bytes_moved + size;
                    freed = freed + size;
                    proof {
                        self.books_after_move(st, id, moved);
                        assert(bytes_in(self.page_ids@, self.page_table@, MemoryTier::Vram)
                            + share_in(MemoryTier::Vram)(page) == bytes_in(
                            st.page_ids@,
                            st.page_table@,
                            MemoryTier::Vram,
                        ) + share_in(MemoryTier::Vram)(moved));
                        assert(bytes_in(self.page_ids@, self.page_table@, MemoryTier::Ram)
                            + share_in(MemoryTier::Ram)(page) == bytes_in(
                            st.page_ids@,
                            st.page_table@,
                            MemoryTier::Ram,
                        ) + share_in(MemoryTier::Ram)(moved));
                        assert(self.tiers() == st.tiers().demoted(
                            id,
                            tier,
                            self.ram_budget_bytes as int,
                        ));
                    }
                },
                None => {},
            }
            i = i + 1;
        }
        if freed >= needed {
            Ok(())
        } else {
            Err(VramPageError::InsufficientMemory { needed, freed, tier })
        }
    }

    /// Asks for a page in `target_tier` or a faster one. A page that is too slow
    /// is brought there, after enough other pages have left. Returns the tier
    /// that the page is in.
    pub fn request_page(
        &mut self,
        layer_id: u64,
        target_tier: MemoryTier,
        current_epoch: u64,
    ) -> (r: Result<MemoryTier, VramPageError>)
        requires
            old(self).wf(),
            old(self).roomy(),
            old(self).page_table@.contains_key(layer_id) ==> old(
                self,
            ).page_table@[layer_id].access_count < u64::MAX,
        ensures
            final(self).wf(),
            old(self).exact() ==> final(self).exact(),
            final(self).page_ids == old(self).page_ids,
            final(self).vram_budget_bytes == old(self).vram_budget_bytes,
            final(self).ram_budget_bytes == old(self).ram_budget_bytes,
            old(self).within_budgets() ==> final(self).within_budgets(),
            !old(self).page_table@.contains_key(layer_id) ==> *final(self) == *old(self) && r
                == Err::<MemoryTier, VramPageError>(VramPageError::PageNotFound(layer_id)),
            old(self).page_table@.contains_key(layer_id) ==> ({
                let page = old(self).page_table@[layer_id];
                let size = page.size_bytes;
                let seen = VramPage {
                    last_access_epoch: current_epoch,
                    access_count: (page.access_count + 1) as u64,
                    ..page
                };
                let touched = Tiers {
                    pages: old(self).page_table@.insert(layer_id, seen),
                    ..old(self).tiers()
                };
                let hit = page.current_tier.level() <= target_tier.level();
                let tight = if target_tier == MemoryTier::Vram {
                    old(self).vram_used_bytes + size > old(self).vram_budget_bytes
                } else {
                    old(self).ram_used_bytes + size > old(self).ram_budget_bytes
                };
                let (made, freed) = if tight {
                    touched.evicted(
                        lru(old(self).page_ids@, touched.pages, target_tier),
                        target_tier,
                        size as int,
                        old(self).ram_budget_bytes as int,
                    )
                } else {
                    (touched, size as int)
                };
                if hit {
                    &&& r == Ok::<MemoryTier, VramPageError>(page.current_tier)
                    &&& final(self).tiers() == touched
                    &&& final(self).stats == (VirtualVramStats {
                        hits: (old(self).stats.hits + 1) as u64,
                        ..old(self).stats
                    })
                } else if freed < size {
                    &&& r == Err::<MemoryTier, VramPageError>(
                        VramPageError::InsufficientMemory {
                            needed: size,
                            freed: freed as u64,
                            tier: target_tier,
                        },
                    )
                    &&& final(self).tiers() == made
                    &&& final(self).stats.misses == old(self).stats.misses + 1
                    &&& final(self).stats.hits == old(self).stats.hits
                    &&& final(self).stats.promotions == old(self).stats.promotions
                } else {
                    &&& r == Ok::<MemoryTier, VramPageError>(target_tier)
                    &&& final(self).tiers() == (Tiers {
                        pages: made.pages.insert(
                            layer_id,
                            VramPage { current_tier: target_tier, ..seen },
                        ),
                        vram_used: if target_tier == MemoryTier::Vram {
                            made.vram_used + size
                        } else {
                            made.vram_used
                        },
                        ram_used: if target_tier == MemoryTier::Ram {
                            made.ram_used + size
                        } else if page.current_tier == MemoryTier::Ram {
                            made.ram_used - size
                        } else {
                            made.ram_used
                        },
                        bytes_moved: made.bytes_moved + size,
                        ..made
                    })
                    &&& final(self).stats.misses == old(self).stats.misses + 1
                    &&& final(self).stats.hits == old(self).stats.hits
                    &&& final(self).stats.promotions == old(self).stats.promotions + 1
                }
            }),
    {
        let ghost st0 = *self;
        let page = match self.page_table.get(&layer_id) {
            Some(p) => *p,
            None => {
                return Err(VramPageError::PageNotFound(layer_id));
            },
        };
        let size: u64 = page.size_bytes;
        let seen = VramPage {
            last_access_epoch: current_epoch,
            access_count: page.access_count + 1,
            ..page
        };
        self.page_table.insert(layer_id, seen);
        proof {
            assert(st0.page_table@.contains_key(layer_id));
            self.books_after_move(st0, layer_id, seen);
            assert(bytes_in(self.page_ids@, self.page_table@, MemoryTier::Vram) + share_in(
                MemoryTier::Vram,
            )(page) == bytes_in(st0.page_ids@, st0.page_table@, MemoryTier::Vram) + share_in(
                MemoryTier::Vram,
            )(seen));
            assert(bytes_in(self.page_ids@, self.page_table@, MemoryTier::Ram) + share_in(
                MemoryTier::Ram,
            )(page) == bytes_in(st0.page_ids@, st0.page_table@, MemoryTier::Ram) + share_in(
                MemoryTier::Ram,
            )(seen));
        }
        if page.current_tier.level_of() <= target_tier.level_of() {
            self.stats.hits = self.stats.hits + 1;
            return Ok(page.current_tier);
        }
        self.stats.misses = self.stats.misses + 1;
        let tight: bool = match target_tier {
            MemoryTier::Vram => self.vram_used_bytes + size > self.vram_budget_bytes,
            _ => self.ram_used_bytes + size > self.ram_budget_bytes,
        };
        let ghost st1 = *self;
        if tight {
            match self.evict_from_tier(target_tier, size, current_epoch) {
                Ok(_) => {},
                Err(e) => {
                    return Err(e);
                },
            }
        }
        let ghost st2 = *self;
        proof {
            assert(st1.page_table@.contains_key(layer_id));
            assert(st2.page_table@.contains_key(layer_id));
            assert(st2.page_table@[layer_id] == seen);
            total_changes(
                st2.page_ids@,
                st2.page_table@,
                layer_id,
                seen,
                share_in(MemoryTier::Ram),
            );
            total_changes(st2.page_ids@, st2.page_table@, layer_id, seen, size_of_page());
        }
        let moved = VramPage { current_tier: target_tier, ..seen };
        match target_tier {
            MemoryTier::Vram => {
                if page.current_tier == MemoryTier::Ram {
                    self.ram_used_bytes = self.ram_used_bytes - size;
                }
                self.vram_used_bytes = self.vram_used_bytes + size;
            },
            _ => {
                self.ram_used_bytes = self.ram_used_bytes + size;
            },
        }
        self.page_table.insert(layer_id, moved);
        self.stats.promotions = self.stats.promotions + 1;
        self.stats.bytes_moved = self.stats.bytes_moved + size;
        proof {
            self.books_after_move(st2, layer_id, moved);
            assert(bytes_in(self.page_ids@, self.page_table@, MemoryTier::Vram) + share_in(
                MemoryTier::Vram,
            )(seen) == bytes_in(st2.page_ids@, st2.page_table@, MemoryTier::Vram) + share_in(
                MemoryTier::Vram,
            )(moved));
            assert(bytes_in(self.page_ids@, self.page_table@, MemoryTier::Ram) + share_in(
                MemoryTier::Ram,
            )(seen) == bytes_in(st2.page_ids@, st2.page_table@, MemoryTier::Ram) + share_in(
                MemoryTier::Ram,
            )(moved));
        }
        Ok(target_tier)
    }
}

/// What the pages hold in one tier is part of what they hold.
proof fn bytes_in_part(ids: Seq<u64>, pages: Pages, tier: MemoryTier)
    ensures
        bytes_in(ids, pages, tier) <= bytes_of(ids, pages),
    decreases ids.len(),
{
    if ids.len() > 0 {
        bytes_in_part(ids.drop_last(), pages, tier);
    }
}

/// The pages of a tier are all those that stand in it, in the order of the ids.
pub proof fn members_are_all_of_the_tier(ids: Seq<u64>, pages: Pages, tier: MemoryTier)
    ensures
        members(ids, pages, tier) == ids.filter(|id: u64| pages[id].current_tier == tier),
    decreases ids.len(),
{
    reveal(Seq::filter);
    if ids.len() > 0 {
        members_are_all_of_the_tier(ids.drop_last(), pages, tier);
    }
}

/// The bytes of the pages `ids`.
pub open spec fn bytes_of_pages(ids: Seq<u64>, pages: Pages) -> int
    decreases ids.len(),
{
    if ids.len() == 0 {
        0
    } else {
        pages[ids[0]].size_bytes + bytes_of_pages(ids.skip(1), pages)
    }
}

/// Pages leave a tier from the first of the order on, and no more of them than the bytes
/// that are needed take. The result is how many leave: none of those is in the tier
/// afterwards, what they hold is what is freed, and every other page stays as it is.
pub proof fn pages_leave_in_order(
    t: Tiers,
    order: Seq<u64>,
    tier: MemoryTier,
    needed: int,
    ram_budget: int,
) -> (gone: int)
    requires
        order.no_duplicates(),
        tier != MemoryTier::Ssd,
    ensures
        ({
            let (after, freed) = t.evicted(order, tier, needed, ram_budget);
            &&& 0 <= gone <= order.len()
            &&& freed == bytes_of_pages(order.take(gone), t.pages)
            &&& gone < order.len() ==> freed >= needed
            &&& gone > 0 ==> freed - t.pages[order[gone - 1]].size_bytes < needed
            &&& after.demotions == t.demotions + gone
            &&& after.bytes_moved == t.bytes_moved + freed
            &&& forall|i: int|
                0 <= i < gone ==> {
                    let page = after.pages[#[trigger] order[i]];
                    &&& page.current_tier != tier
                    &&& page == (VramPage {
                        current_tier: page.current_tier,
                        ..t.pages[order[i]]
                    })
                    &&& tier == MemoryTier::Ram ==> page.current_tier == MemoryTier::Ssd
                }
            &&& forall|id: u64|
                !order.take(gone).contains(id) ==> #[trigger] after.pages[id] == t.pages[id]
        }),
    decreases order.len(),
{
    if order.len() == 0 || needed <= 0 {
        assert(order.take(0).len() == 0);
        0
    } else {
        let size = t.pages[order[0]].size_bytes as int;
        let one = t.demoted(order[0], tier, ram_budget);
        let rest = order.skip(1);
        assert(rest.no_duplicates());
        let more = pages_leave_in_order(one, rest, tier, needed - size, ram_budget);
        let gone = more + 1;
        let (after, freed) = t.evicted(order, tier, needed, ram_budget);
        let (all, tail) = (order.take(gone), rest.take(more));
        assert(all.skip(1) =~= tail);
        assert(all[0] == order[0]);
        assert forall|k: int| 0 <= k < rest.len() implies #[trigger] rest[k] != order[0] by {
            assert(rest[k] == order[k + 1]);
        }
        assert(bytes_of_pages(tail, one.pages) == bytes_of_pages(tail, t.pages)) by {
            assert forall|k: int| 0 <= k < tail.len() implies (#[trigger] one.pages[tail[k]]).size_bytes
                == t.pages[tail[k]].size_bytes by {
                assert(tail[k] == rest[k]);
            }
            same_bytes(tail, one.pages, t.pages);
        }
        assert(!tail.contains(order[0]));
        if more > 0 {
            assert(rest[more - 1] == order[gone - 1]);
            assert(one.pages[rest[more - 1]] == t.pages[rest[more - 1]]);
        } else {
            assert(tail.len() == 0);
        }
        assert forall|i: int| 0 <= i < gone implies {
            let page = after.pages[#[trigger] order[i]];
            &&& page.current_tier != tier
            &&& page == (VramPage { current_tier: page.current_tier, ..t.pages[order[i]] })
            &&& tier == MemoryTier::Ram ==> page.current_tier == MemoryTier::Ssd
        } by {
            if i > 0 {
                assert(rest[i - 1] == order[i]);
                assert(one.pages[order[i]] == t.pages[order[i]]);
            } else {
                assert(after.pages[order[0]] == one.pages[order[0]]);
            }
        }
        assert forall|id: u64| !all.contains(id) implies #[trigger] after.pages[id]
            == t.pages[id] by {
            if tail.contains(id) {
                let k = choose|k: int| 0 <= k < tail.len() && tail[k] == id;
                assert(all[k + 1] == id);
            }
            if id == order[0] {
                assert(all.contains(id));
            }
        }
        gone
    }
}

proof fn same_bytes(ids: Seq<u64>, a: Pages, b: Pages)
    requires
        forall|k: int|
            0 <= k < ids.len() ==> (#[trigger] a[ids[k]]).size_bytes == b[ids[k]].size_bytes,
    ensures
        bytes_of_pages(ids, a) == bytes_of_pages(ids, b),
    decreases ids.len(),
{
    if ids.len() > 0 {
        let rest = ids.skip(1);
        assert forall|k: int| 0 <= k < rest.len() implies (#[trigger] a[rest[k]]).size_bytes
            == b[rest[k]].size_bytes by {
            assert(a[ids[k + 1]].size_bytes == b[ids[k + 1]].size_bytes);
        }
        same_bytes(rest, a, b);
        assert(a[ids[0]].size_bytes == b[ids[0]].size_bytes);
    }
}

/// A page that leaves the graphics memory goes to the main memory where it fits, and to
/// disk where it does not.
pub proof fn demoted_pages_go_one_tier_down(t: Tiers, id: u64, ram_budget: int)
    ensures
        ({
            let after = t.demoted(id, MemoryTier::Vram, ram_budget);
            let size = t.pages[id].size_bytes as int;
            &&& after.vram_used == t.vram_used - size
            &&& t.ram_used + size <= ram_budget ==> after.pages[id].current_tier
                == MemoryTier::Ram && after.ram_used == t.ram_used + size
            &&& t.ram_used + size > ram_budget ==> after.pages[id].current_tier
                == MemoryTier::Ssd && after.ram_used == t.ram_used
        }),
{
}

} // verus!
