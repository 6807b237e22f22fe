//! Which layers stay in fast memory: the structural ones first, then those that
//! matter most for what is being computed.

use vstd::prelude::*;

use crate::float_bits::{rank, rank_of};
use crate::ranking::{is_ranking, rank_desc, ranking_is_a_permutation, ranking_of};

verus! {

/// A layer that may be in fast memory.
#[derive(Debug)]
pub struct PagedLayer {
    pub id: usize,
    /// What the layer is about, as the bits of single-precision numbers.
    pub semantic_key: Vec<u32>,
    pub size_bytes: u64,
    pub in_vram: bool,
    /// Structural layers come first.
    pub is_structural: bool,
}

/// Layers and the fast memory for them.
pub struct SemanticPager {
    /// The layers, each id once, in the order in which ids first came.
    pub layers: Vec<PagedLayer>,
    pub vram_capacity_bytes: u64,
    pub current_vram_usage: u64,
}

/// Layer `i` has the id `id`.
pub open spec fn has_id(layers: Seq<PagedLayer>, id: usize, i: int) -> bool {
    0 <= i < layers.len() && layers[i].id == id
}

/// What the layers in fast memory among the first `n` take.
pub open spec fn used(layers: Seq<PagedLayer>, n: int) -> int
    decreases n,
{
    if n <= 0 {
        0
    } else {
        used(layers, n - 1) + if layers[n - 1].in_vram {
            layers[n - 1].size_bytes as int
        } else {
            0
        }
    }
}

/// The usage after a layer of this size was offered to a memory.
pub open spec fn placed(usage: int, size: int, capacity: int) -> int {
    if usage + size <= capacity {
        usage + size
    } else {
        usage
    }
}

/// The usage after the structural layers among the first `n` were offered, in
/// their order.
pub open spec fn structural_usage(layers: Seq<PagedLayer>, capacity: int, n: int) -> int
    decreases n,
{
    if n <= 0 {
        0
    } else {
        let before = structural_usage(layers, capacity, n - 1);
        if layers[n - 1].is_structural {
            placed(before, layers[n - 1].size_bytes as int, capacity)
        } else {
            before
        }
    }
}

/// The usage after the other layers among the first `n` of an order were offered
/// too.
pub open spec fn total_usage(
    layers: Seq<PagedLayer>,
    order: Seq<usize>,
    capacity: int,
    n: int,
) -> int
    decreases n,
{
    if n <= 0 {
        structural_usage(layers, capacity, layers.len() as int)
    } else {
        let before = total_usage(layers, order, capacity, n - 1);
        let l = layers[order[n - 1] as int];
        if l.is_structural {
            before
        } else {
            placed(before, l.size_bytes as int, capacity)
        }
    }
}

/// Sort keys: a higher weight comes first.
pub open spec fn weight_keys(weights: Seq<u32>) -> Seq<i128> {
    weights.map_values(|w: u32| rank(w) as i128)
}

/// The layers are the same but for where they are.
pub open spec fn same_layers(a: Seq<PagedLayer>, b: Seq<PagedLayer>) -> bool {
    &&& a.len() == b.len()
    &&& forall|i: int|
        0 <= i < a.len() ==> (#[trigger] a[i]).id == b[i].id && a[i].semantic_key
            == b[i].semantic_key && a[i].size_bytes == b[i].size_bytes && a[i].is_structural
            == b[i].is_structural
}

proof fn used_after_change(a: Seq<PagedLayer>, b: Seq<PagedLayer>, i: int, n: int)
    requires
        0 <= i < a.len(),
        a.len() == b.len(),
        0 <= n <= a.len(),
        b[i].size_bytes == a[i].size_bytes,
        forall|j: int| 0 <= j < a.len() && j != i ==> b[j] == a[j],
    ensures
        used(b, n) == used(a, n) + if i < n {
            (if b[i].in_vram {
                b[i].size_bytes as int
            } else {
                0
            }) - (if a[i].in_vram {
                a[i].size_bytes as int
            } else {
                0
            })
        } else {
            0
        },
    decreases n,
{
    if n > 0 {
        used_after_change(a, b, i, n - 1);
    }
}

proof fn none_used(a: Seq<PagedLayer>, n: int)
    requires
        0 <= n <= a.len(),
        forall|j: int| 0 <= j < a.len() ==> !(#[trigger] a[j]).in_vram,
    ensures
        used(a, n) == 0,
    decreases n,
{
    if n > 0 {
        none_used(a, n - 1);
    }
}

impl SemanticPager {
    pub open spec fn wf(&self) -> bool {
        &&& forall|i: int, j: int|
            0 <= i < j < self.layers@.len() ==> (#[trigger] self.layers@[i]).id != (
            #[trigger] self.layers@[j]).id
        &&& self.current_vram_usage <= self.vram_capacity_bytes
    }

    /// No layer.
    pub fn new(capacity: u64) -> (p: SemanticPager)
        ensures
            p.wf(),
            p.layers@.len() == 0,
            p.vram_capacity_bytes == capacity,
            p.current_vram_usage == 0,
    {
        SemanticPager { layers: Vec::new(), vram_capacity_bytes: capacity, current_vram_usage: 0 }
    }

    fn index_of(&self, id: usize) -> (r: Option<usize>)
        ensures
            match r {
                Some(i) => has_id(self.layers@, id, i as int),
                None => forall|i: int| !#[trigger] has_id(self.layers@, id, i),
            },
    {
        let mut i: usize = 0;
        while i < self.layers.len()
            invariant
                i <= self.layers@.len(),
                forall|j: int| 0 <= j < i ==> !#[trigger] has_id(self.layers@, id, j),
            decreases self.layers@.len() - i,
        {
            if self.layers[i].id == id {
                return Some(i);
            }
            i = i + 1;
        }
        None
    }

    /// Makes a layer known, in slow memory. A layer with the same id goes.
    pub fn register_layer(
        &mut self,
        id: usize,
        semantic_key: Vec<u32>,
        size_bytes: u64,
        is_structural: bool,
    )
        requires
            old(self).wf(),
        ensures
            final(self).wf(),
            final(self).vram_capacity_bytes == old(self).vram_capacity_bytes,
            final(self).current_vram_usage == old(self).current_vram_usage,
            ({
                let layer = PagedLayer {
                    id,
                    semantic_key,
                    size_bytes,
                    in_vram: false,
                    is_structural,
                };
                if exists|i: int| has_id(old(self).layers@, id, i) {
                    exists|i: int| #[trigger]
                        has_id(old(self).layers@, id, i) && final(self).layers@ == old(
                            self,
                        ).layers@.update(i, layer)
                } else {
                    final(self).layers@ == old(self).layers@.push(layer)
                }
            }),
    {
        let layer = PagedLayer { id, semantic_key, size_bytes, in_vram: false, is_structural };
        let ghost before = self.layers@;
        match self.index_of(id) {
            Some(i) => {
                self.layers.set(i, layer);
                assert(has_id(before, id, i as int));
            },
            None => {
                self.layers.push(layer);
                proof {
                    let after = self.layers@;
                    assert forall|i: int, j: int| 0 <= i < j < after.len() implies (
                    #[trigger] after[i]).id != (#[trigger] after[j]).id by {
                        assert(!has_id(before, id, i));
                    }
                }
            },
        }
    }

    /// Decides which layers are in fast memory, given the weight of each: the
    /// structural ones in their order, then the others by weight, each if it
    /// still fits.
    pub fn execute_semantic_paging(&mut self, weights: &Vec<u32>)
        requires
            old(self).wf(),
            weights@.len() == old(self).layers@.len(),
        ensures
            final(self).wf(),
            final(self).vram_capacity_bytes == old(self).vram_capacity_bytes,
            same_layers(final(self).layers@, old(self).layers@),
            ({
                let n = old(self).layers@.len() as int;
                let order = ranking_of(weight_keys(weights@));
                let capacity = old(self).vram_capacity_bytes as int;
                &&& is_ranking(weight_keys(weights@), order)
                &&& final(self).current_vram_usage == total_usage(
                    old(self).layers@,
                    order,
                    capacity,
                    n,
                )
                &&& used(final(self).layers@, n) == final(self).current_vram_usage
                &&& forall|i: int|
                    0 <= i < n && (#[trigger] final(self).layers@[i]).is_structural ==> final(
                        self).layers@[i].in_vram == (structural_usage(
                        old(self).layers@,
                        capacity,
                        i,
                    ) + old(self).layers@[i].size_bytes <= capacity)
                &&& forall|k: int|
                    0 <= k < n && !final(self).layers@[(#[trigger] order[k]) as int].is_structural
                        ==> final(self).layers@[order[k] as int].in_vram == (total_usage(
                        old(self).layers@,
                        order,
                        capacity,
                        k,
                    ) + old(self).layers@[order[k] as int].size_bytes <= capacity)
            }),
    {
        let ghost start = self.layers@;
        let ghost capacity = self.vram_capacity_bytes as int;
        let n: usize = self.layers.len();
        let mut keys: Vec<i128> = Vec::new();
        let mut i: usize = 0;
        while i < n
            invariant
                n == start.len(),
                self.layers@ == start,
                self.vram_capacity_bytes == capacity,
                weights@.len() == n,
                i <= n,
                keys@.len() == i,
                forall|j: int| 0 <= j < i ==> #[trigger] keys@[j] == weight_keys(weights@)[j],
            decreases n - i,
        {
            keys.push(rank_of(weights[i]) as i128);
            i = i + 1;
        }
        assert(keys@ =~= weight_keys(weights@));
        let order = rank_desc(&keys);
        proof {
            ranking_is_a_permutation(keys@, order@);
        }
        self.clear_marks();
        let mut usage: u64 = 0;
        let mut a: usize = 0;
        proof {
            none_used(self.layers@, n as int);
        }
        while a < n
            invariant
                n == start.len(),
                a <= n,
                self.vram_capacity_bytes == capacity,
                same_layers(self.layers@, start),
                usage <= capacity,
                usage == structural_usage(start, capacity, a as int),
                used(self.layers@, n as int) == usage,
                forall|j: int|
                    0 <= j < a && (#[trigger] self.layers@[j]).is_structural
                        ==> self.layers@[j].in_vram == (structural_usage(start, capacity, j)
                        + start[j].size_bytes <= capacity),
                forall|j: int|
                    0 <= j < n && (j >= a || !start[j].is_structural) ==> !(
                    #[trigger] self.layers@[j]).in_vram,
            decreases n - a,
        {
            assert(self.layers@[a as int].is_structural == start[a as int].is_structural);
            assert(self.layers@[a as int].size_bytes == start[a as int].size_bytes);
            if self.layers[a].is_structural {
                let size: u64 = self.layers[a].size_bytes;
                if size <= self.vram_capacity_bytes - usage {
                    self.mark(a);
                    usage = usage + size;
                }
            }
            a = a + 1;
        }
        let mut k: usize = 0;
        while k < n
            invariant
                n == start.len(),
                k <= n,
                order@.len() == n,
                order@.no_duplicates(),
                forall|j: int| 0 <= j < n ==> 0 <= #[trigger] order@[j] < n,
                self.vram_capacity_bytes == capacity,
                same_layers(self.layers@, start),
                usage <= capacity,
                usage == total_usage(start, order@, capacity, k as int),
                used(self.layers@, n as int) == usage,
                forall|j: int|
                    0 <= j < n && (#[trigger] self.layers@[j]).is_structural
                        ==> self.layers@[j].in_vram == (structural_usage(start, capacity, j)
                        + start[j].size_bytes <= capacity),
                forall|j: int|
                    0 <= j < k && !self.layers@[(#[trigger] order@[j]) as int].is_structural
                        ==> self.layers@[order@[j] as int].in_vram == (total_usage(
                        start,
                        order@,
                        capacity,
                        j,
                    ) + start[order@[j] as int].size_bytes <= capacity),
                forall|j: int|
                    k <= j < n && !self.layers@[(#[trigger] order@[j]) as int].is_structural
                        ==> !self.layers@[order@[j] as int].in_vram,
            decreases n - k,
        {
            let at: usize = order[k];
            assert(0 <= order@[k as int] < n);
            assert(self.layers@[at as int].is_structural == start[at as int].is_structural);
            assert(self.layers@[at as int].size_bytes == start[at as int].size_bytes);
            if !self.layers[at].is_structural {
                let size: u64 = self.layers[at].size_bytes;
                if size <= self.vram_capacity_bytes - usage {
                    self.mark(at);
                    usage = usage + size;
                }
            }
            k = k + 1;
        }
        self.current_vram_usage = usage;
        proof {
            let after = self.layers@;
            assert forall|i: int, j: int| 0 <= i < j < after.len() implies (#[trigger] after[i]).id
                != (#[trigger] after[j]).id by {
                assert(start[i].id != start[j].id);
            }
        }
    }

    fn clear_marks(&mut self)
        ensures
            final(self).vram_capacity_bytes == old(self).vram_capacity_bytes,
            same_layers(final(self).layers@, old(self).layers@),
            forall|j: int|
                0 <= j < final(self).layers@.len() ==> !(#[trigger] final(self).layers@[j]).in_vram,
    {
        let mut i: usize = 0;
        while i < self.layers.len()
            invariant
                i <= self.layers@.len(),
                self.vram_capacity_bytes == old(self).vram_capacity_bytes,
                same_layers(self.layers@, old(self).layers@),
                forall|j: int| 0 <= j < i ==> !(#[trigger] self.layers@[j]).in_vram,
            decreases self.layers@.len() - i,
        {
            self.layers[i].in_vram = false;
            i = i + 1;
        }
    }

    fn mark(&mut self, i: usize)
        requires
            i < old(self).layers@.len(),
            !old(self).layers@[i as int].in_vram,
        ensures
            final(self).vram_capacity_bytes == old(self).vram_capacity_bytes,
            same_layers(final(self).layers@, old(self).layers@),
            final(self).layers@[i as int].in_vram,
            forall|j: int|
                0 <= j < final(self).layers@.len() && j != i ==> #[trigger] final(self).layers@[j]
                    == old(self).layers@[j],
            used(final(self).layers@, final(self).layers@.len() as int) == used(
                old(self).layers@,
                old(self).layers@.len() as int,
            ) + old(self).layers@[i as int].size_bytes,
    {
        let ghost before = self.layers@;
        self.layers[i].in_vram = true;
        proof {
            used_after_change(before, self.layers@, i as int, before.len() as int);
        }
    }
}

/// Fast memory is never overfull.
pub proof fn usage_stays_within_capacity(
    layers: Seq<PagedLayer>,
    order: Seq<usize>,
    capacity: int,
    n: int,
)
    requires
        0 <= capacity,
        0 <= n <= order.len(),
    ensures
        0 <= total_usage(layers, order, capacity, n) <= capacity,
    decreases n,
{
    if n > 0 {
        usage_stays_within_capacity(layers, order, capacity, n - 1);
    } else {
        structural_stays_within(layers, capacity, layers.len() as int);
    }
}

proof fn structural_stays_within(layers: Seq<PagedLayer>, capacity: int, n: int)
    requires
        0 <= capacity,
        0 <= n <= layers.len(),
    ensures
        0 <= structural_usage(layers, capacity, n) <= capacity,
    decreases n,
{
    if n > 0 {
        structural_stays_within(layers, capacity, n - 1);
    }
}

/// The more layers are looked at, the more memory is in use: nothing is taken out for a
/// layer that comes later, and the structural layers come before all others.
pub proof fn usage_never_falls(
    layers: Seq<PagedLayer>,
    order: Seq<usize>,
    capacity: int,
    k: int,
    n: int,
)
    requires
        0 <= k <= n <= order.len(),
    ensures
        total_usage(layers, order, capacity, k) <= total_usage(layers, order, capacity, n),
        structural_usage(layers, capacity, layers.len() as int) <= total_usage(
            layers,
            order,
            capacity,
            n,
        ),
    decreases n,
{
    if k < n {
        usage_never_falls(layers, order, capacity, k, n - 1);
    } else if n > 0 {
        usage_never_falls(layers, order, capacity, n - 1, n - 1);
    }
}

/// A layer is left out only where it does not fit beside the layers that came before it:
/// the layers that are placed and this one together take more than there is.
pub proof fn left_out_layers_do_not_fit(
    layers: Seq<PagedLayer>,
    order: Seq<usize>,
    capacity: int,
    k: int,
)
    requires
        0 <= k < order.len(),
        !layers[order[k] as int].is_structural,
    ensures
        ({
            let size = layers[order[k] as int].size_bytes as int;
            let before = total_usage(layers, order, capacity, k);
            let after = total_usage(layers, order, capacity, k + 1);
            &&& before + size <= capacity ==> after == before + size
            &&& before + size > capacity ==> after == before && total_usage(
                layers,
                order,
                capacity,
                order.len() as int,
            ) + size > capacity
        }),
{
    usage_never_falls(layers, order, capacity, k, order.len() as int);
}

/// The same of the structural layers, which are placed in the order of the list.
pub proof fn left_out_structure_does_not_fit(layers: Seq<PagedLayer>, capacity: int, k: int)
    requires
        0 <= k < layers.len(),
        layers[k].is_structural,
    ensures
        ({
            let size = layers[k].size_bytes as int;
            let before = structural_usage(layers, capacity, k);
            let after = structural_usage(layers, capacity, k + 1);
            &&& before + size <= capacity ==> after == before + size
            &&& before + size > capacity ==> after == before && structural_usage(
                layers,
                capacity,
                layers.len() as int,
            ) + size > capacity
        }),
{
    structural_usage_never_falls(layers, capacity, k, layers.len() as int);
}

proof fn structural_usage_never_falls(layers: Seq<PagedLayer>, capacity: int, k: int, n: int)
    requires
        0 <= k <= n <= layers.len(),
    ensures
        structural_usage(layers, capacity, k) <= structural_usage(layers, capacity, n),
    decreases n,
{
    if k < n {
        structural_usage_never_falls(layers, capacity, k, n - 1);
    }
}

} // verus!
