//! Loading only the experts that are selected.

use std::collections::HashMap;

use vstd::prelude::*;

use crate::float_bits::{rank, rank_of};
use crate::ranking::{is_ranking, rank_desc, ranking_of};

verus! {

broadcast use vstd::std_specs::hash::group_hash_axioms;

/// The right to a load that is under way. Who loads looks whether it was
/// cancelled.
#[derive(Debug, Clone, Copy, PartialEq, Eq, Structural)]
pub struct EarlyAbortToken {
    pub cancelled: bool,
    pub expert_id: u32,
}

impl EarlyAbortToken {
    /// A load that is not cancelled.
    pub fn new(expert_id: u32) -> (t: EarlyAbortToken)
        ensures
            t == (EarlyAbortToken { cancelled: false, expert_id }),
    {
        EarlyAbortToken { cancelled: false, expert_id }
    }

    /// Cancels the load.
    pub fn cancel(&mut self)
        ensures
            *final(self) == (EarlyAbortToken { cancelled: true, expert_id: old(self).expert_id }),
    {
        self.cancelled = true;
    }

    /// The expert that is loaded.
    pub fn expert_id(&self) -> (id: u32)
        ensures
            id == self.expert_id,
    {
        self.expert_id
    }

    /// Whether the load was cancelled.
    pub fn is_cancelled(&self) -> (b: bool)
        ensures
            b == self.cancelled,
    {
        self.cancelled
    }
}

/// Sort keys for logits, the largest first.
pub open spec fn logit_keys(v: Seq<u32>) -> Seq<i128> {
    v.map_values(|x: u32| rank(x) as i128)
}

/// The ids among the first `n` that are in the store.
pub open spec fn found(store: Map<u32, Vec<u32>>, ids: Seq<u32>, n: int) -> Seq<u32>
    decreases n,
{
    if n <= 0 {
        Seq::empty()
    } else {
        let before = found(store, ids, n - 1);
        if store.contains_key(ids[n - 1]) {
            before.push(ids[n - 1])
        } else {
            before
        }
    }
}

/// The loads among the first `n` that are selected, or that are not.
pub open spec fn loads_by(
    inflight: Seq<EarlyAbortToken>,
    selected: Seq<u32>,
    wanted: bool,
    n: int,
) -> Seq<EarlyAbortToken>
    decreases n,
{
    if n <= 0 {
        Seq::empty()
    } else {
        let before = loads_by(inflight, selected, wanted, n - 1);
        let t = inflight[n - 1];
        if selected.contains(t.expert_id) == wanted {
            before.push(
                if wanted {
                    t
                } else {
                    EarlyAbortToken { cancelled: true, expert_id: t.expert_id }
                },
            )
        } else {
            before
        }
    }
}

/// The weights of experts, and the loads that are under way.
pub struct ExpertProvisioner {
    /// Weights as the bits of single-precision numbers.
    pub store: HashMap<u32, Vec<u32>>,
    pub inflight: Vec<EarlyAbortToken>,
}

impl Default for ExpertProvisioner {
    fn default() -> (p: ExpertProvisioner)
        ensures
            p.store@ == Map::<u32, Vec<u32>>::empty(),
            p.inflight@ == Seq::<EarlyAbortToken>::empty(),
    {
        ExpertProvisioner::new()
    }
}

impl ExpertProvisioner {
    /// No expert.
    pub fn new() -> (p: ExpertProvisioner)
        ensures
            p.store@ == Map::<u32, Vec<u32>>::empty(),
            p.inflight@ == Seq::<EarlyAbortToken>::empty(),
    {
        ExpertProvisioner { store: HashMap::new(), inflight: Vec::new() }
    }

    /// Keeps the weights of an expert.
    pub fn register_expert(&mut self, expert_id: u32, weights: Vec<u32>)
        ensures
            final(self).store@ == old(self).store@.insert(expert_id, weights),
            final(self).inflight == old(self).inflight,
    {
        self.store.insert(expert_id, weights);
    }

    /// The `k` experts with the largest logits, the largest first.
    pub fn select_top_k(logits: &Vec<u32>, k: usize) -> (r: Vec<u32>)
        ensures
            ({
                let order = ranking_of(logit_keys(logits@));
                &&& is_ranking(logit_keys(logits@), order)
                &&& r@.len() == if k < logits@.len() {
                    k as int
                } else {
                    logits@.len() as int
                }
                &&& forall|j: int| 0 <= j < r@.len() ==> #[trigger] r@[j] == order[j] as u32
            }),
    {
        let mut keys: Vec<i128> = Vec::new();
        let mut i: usize = 0;
        while i < logits.len()
            invariant
                i <= logits@.len(),
                keys@.len() == i,
                forall|j: int| 0 <= j < i ==> #[trigger] keys@[j] == logit_keys(logits@)[j],
            decreases logits@.len() - i,
        {
            keys.push(rank_of(logits[i]) as i128);
            i = i + 1;
        }
        assert(keys@ =~= logit_keys(logits@));
        let order = rank_desc(&keys);
        let n: usize = if k < logits.len() {
            k
        } else {
            logits.len()
        };
        let mut r: Vec<u32> = Vec::new();
        let mut j: usize = 0;
        while j < n
            invariant
                j <= n <= order@.len(),
                r@.len() == j,
                forall|a: int| 0 <= a < j ==> #[trigger] r@[a] == order@[a] as u32,
            decreases n - j,
        {
            r.push(order[j] as u32);
            j = j + 1;
        }
        r
    }

    /// The weights of the selected experts that are there. No other expert is
    /// touched.
    pub fn provision(&self, expert_ids: &Vec<u32>) -> (r: Vec<(u32, &Vec<u32>)>)
        ensures
            ({
                let ids = found(self.store@, expert_ids@, expert_ids@.len() as int);
                &&& r@.len() == ids.len()
                &&& forall|k: int|
                    0 <= k < r@.len() ==> (#[trigger] r@[k]).0 == ids[k]
                        && self.store@.contains_key(ids[k]) && *r@[k].1 == self.store@[ids[k]]
            }),
    {
        let mut r: Vec<(u32, &Vec<u32>)> = Vec::new();
        let mut i: usize = 0;
        while i < expert_ids.len()
            invariant
                i <= expert_ids@.len(),
                r@.len() == found(self.store@, expert_ids@, i as int).len(),
                forall|k: int|
                    0 <= k < r@.len() ==> (#[trigger] r@[k]).0 == found(
                        self.store@,
                        expert_ids@,
                        i as int,
                    )[k] && self.store@.contains_key(r@[k].0) && *r@[k].1 == self.store@[r@[k].0],
            decreases expert_ids@.len() - i,
        {
            let id: u32 = expert_ids[i];
            match self.store.get(&id) {
                Some(w) => {
                    r.push((id, w));
                },
                None => {},
            }
            i = i + 1;
        }
        r
    }

    /// Cancels the loads of experts that are not selected and hands them out; the
    /// others go on.
    pub fn abort_non_selected(&mut self, selected: &Vec<u32>) -> (aborted: Vec<EarlyAbortToken>)
        ensures
            final(self).store == old(self).store,
            final(self).inflight@ == loads_by(
                old(self).inflight@,
                selected@,
                true,
                old(self).inflight@.len() as int,
            ),
            aborted@ == loads_by(
                old(self).inflight@,
                selected@,
                false,
                old(self).inflight@.len() as int,
            ),
    {
        let mut kept: Vec<EarlyAbortToken> = Vec::new();
        let mut aborted: Vec<EarlyAbortToken> = Vec::new();
        let mut i: usize = 0;
        while i < self.inflight.len()
            invariant
                *self == *old(self),
                i <= self.inflight@.len(),
                kept@ == loads_by(self.inflight@, selected@, true, i as int),
                aborted@ == loads_by(self.inflight@, selected@, false, i as int),
            decreases self.inflight@.len() - i,
        {
            let t = self.inflight[i];
            if is_selected(selected, t.expert_id) {
                kept.push(t);
            } else {
                let mut gone = t;
                gone.cancel();
                aborted.push(gone);
            }
            i = i + 1;
        }
        self.inflight = kept;
        aborted
    }
}

fn is_selected(selected: &Vec<u32>, id: u32) -> (b: bool)
    ensures
        b == selected@.contains(id),
{
    let mut i: usize = 0;
    while i < selected.len()
        invariant
            i <= selected@.len(),
            forall|j: int| 0 <= j < i ==> selected@[j] != id,
        decreases selected@.len() - i,
    {
        if selected[i] == id {
            assert(selected@[i as int] == id);
            return true;
        }
        i = i + 1;
    }
    false
}

/// Every load is kept or cancelled, and none is both.
pub proof fn loads_are_kept_or_cancelled(
    inflight: Seq<EarlyAbortToken>,
    selected: Seq<u32>,
    n: int,
)
    requires
        0 <= n <= inflight.len(),
    ensures
        loads_by(inflight, selected, true, n).len() + loads_by(inflight, selected, false, n).len()
            == n,
        forall|k: int|
            0 <= k < loads_by(inflight, selected, true, n).len() ==> selected.contains(
                (#[trigger] loads_by(inflight, selected, true, n)[k]).expert_id,
            ),
        forall|k: int|
            0 <= k < loads_by(inflight, selected, false, n).len() ==> (#[trigger] loads_by(
                inflight,
                selected,
                false,
                n,
            )[k]).cancelled && !selected.contains(
                loads_by(inflight, selected, false, n)[k].expert_id,
            ),
    decreases n,
{
    if n > 0 {
        loads_are_kept_or_cancelled(inflight, selected, n - 1);
    }
}

/// What is provided is every expert asked for that is in the store, in the order asked for.
pub proof fn stored_experts_are_found(store: Map<u32, Vec<u32>>, ids: Seq<u32>, n: int)
    requires
        0 <= n <= ids.len(),
    ensures
        found(store, ids, n) == ids.take(n).filter(|id: u32| store.contains_key(id)),
    decreases n,
{
    reveal(Seq::filter);
    if n > 0 {
        stored_experts_are_found(store, ids, n - 1);
        assert(ids.take(n).drop_last() =~= ids.take(n - 1));
    }
}

/// The loads that go on are those of selected experts, unchanged; the loads that are
/// aborted are all the others, each cancelled. Both keep their order.
pub proof fn loads_go_on_or_are_cancelled(
    inflight: Seq<EarlyAbortToken>,
    selected: Seq<u32>,
    n: int,
)
    requires
        0 <= n <= inflight.len(),
    ensures
        loads_by(inflight, selected, true, n) == inflight.take(n).filter(
            |t: EarlyAbortToken| selected.contains(t.expert_id),
        ),
        loads_by(inflight, selected, false, n) == inflight.take(n).filter(
            |t: EarlyAbortToken| !selected.contains(t.expert_id),
        ).map_values(
            |t: EarlyAbortToken| EarlyAbortToken { cancelled: true, expert_id: t.expert_id },
        ),
    decreases n,
{
    reveal(Seq::filter);
    let others = |t: EarlyAbortToken| !selected.contains(t.expert_id);
    let cancel = |t: EarlyAbortToken|
        EarlyAbortToken { cancelled: true, expert_id: t.expert_id };
    if n > 0 {
        loads_go_on_or_are_cancelled(inflight, selected, n - 1);
        assert(inflight.take(n).drop_last() =~= inflight.take(n - 1));
    }
    assert(loads_by(inflight, selected, false, n) =~= inflight.take(n).filter(others).map_values(
        cancel,
    ));
}

} // verus!
