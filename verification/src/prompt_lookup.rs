//! Prompt lookup: drafts copied from what followed an earlier occurrence of the
//! latest tokens.

use vstd::prelude::*;

use crate::speculation::copy_range;

verus! {

/// The token that separates documents in the pool.
pub const BOUNDARY: u32 = 0xffff_ffff;

/// How many tokens of `pool` from `from` on can be copied: at most `max`, and
/// none across a boundary.
pub open spec fn copy_len(pool: Seq<u32>, from: int, max: nat) -> nat
    decreases max,
{
    if max == 0 || from >= pool.len() || pool[from] == BOUNDARY {
        0
    } else {
        1 + copy_len(pool, from + 1, (max - 1) as nat)
    }
}

/// `pattern` stands in `pool` at `i`.
pub open spec fn stands_at(pool: Seq<u32>, pattern: Seq<u32>, i: int) -> bool {
    0 <= i && i + pattern.len() <= pool.len() && pool.subrange(i, i + pattern.len()) == pattern
}

/// The draft for `pattern`: what follows the latest occurrence before `hi`
/// behind which something can be copied.
pub open spec fn draft_before(pool: Seq<u32>, pattern: Seq<u32>, hi: int, max: nat) -> Option<
    Seq<u32>,
>
    decreases hi,
{
    if hi <= 0 {
        None
    } else {
        let next = hi - 1 + pattern.len();
        let n = copy_len(pool, next, max);
        if stands_at(pool, pattern, hi - 1) && n > 0 {
            Some(pool.subrange(next, next + n))
        } else {
            draft_before(pool, pattern, hi - 1, max)
        }
    }
}

/// The draft that the first of `sizes` that gives one gives.
pub open spec fn draft_for(pool: Seq<u32>, last: Seq<u32>, sizes: Seq<usize>, max: nat) -> Option<
    Seq<u32>,
>
    decreases sizes.len(),
{
    if sizes.len() == 0 {
        None
    } else {
        let n = sizes[0] as int;
        let rest = draft_for(pool, last, sizes.skip(1), max);
        if last.len() < n || pool.len() < n {
            rest
        } else {
            match draft_before(pool, last.skip(last.len() - n), pool.len() - n, max) {
                Some(d) => Some(d),
                None => rest,
            }
        }
    }
}

/// A copied run holds no boundary.
proof fn copy_len_stops_at_boundaries(pool: Seq<u32>, from: int, max: nat)
    requires
        0 <= from,
    ensures
        copy_len(pool, from, max) <= max,
        copy_len(pool, from, max) > 0 ==> from + copy_len(pool, from, max) <= pool.len(),
        forall|i: int|
            from <= i < from + copy_len(pool, from, max) ==> #[trigger] pool[i] != BOUNDARY,
    decreases max,
{
    if max > 0 && from < pool.len() && pool[from] != BOUNDARY {
        copy_len_stops_at_boundaries(pool, from + 1, (max - 1) as nat);
    }
}

/// A draft holds between one and `max` tokens, and none of them is a boundary:
/// no draft leads from one document into another.
pub proof fn drafts_stay_in_one_document(
    pool: Seq<u32>,
    last: Seq<u32>,
    sizes: Seq<usize>,
    max: nat,
)
    ensures
        match draft_for(pool, last, sizes, max) {
            Some(d) => 0 < d.len() <= max && forall|i: int|
                0 <= i < d.len() ==> #[trigger] d[i] != BOUNDARY,
            None => true,
        },
    decreases sizes.len(),
{
    if sizes.len() > 0 {
        drafts_stay_in_one_document(pool, last, sizes.skip(1), max);
        let n = sizes[0] as int;
        if !(last.len() < n || pool.len() < n) {
            draft_before_stays(pool, last.skip(last.len() - n), pool.len() - n, max);
        }
    }
}

proof fn draft_before_stays(pool: Seq<u32>, pattern: Seq<u32>, hi: int, max: nat)
    ensures
        match draft_before(pool, pattern, hi, max) {
            Some(d) => 0 < d.len() <= max && forall|i: int|
                0 <= i < d.len() ==> #[trigger] d[i] != BOUNDARY,
            None => true,
        },
    decreases hi,
{
    if hi > 0 {
        copy_len_stops_at_boundaries(pool, hi - 1 + pattern.len(), max);
        draft_before_stays(pool, pattern, hi - 1, max);
    }
}

/// Looks drafts up in a pool of context.
pub struct PromptLookup {
    /// The lengths of the patterns to try, in this order.
    pub ngram_sizes: Vec<usize>,
    /// The most tokens that a draft may hold.
    pub max_copy_tokens: usize,
    pub context_pool: Vec<u32>,
}

fn append_all(pool: &mut Vec<u32>, tokens: &[u32])
    ensures
        final(pool)@ == old(pool)@ + tokens@,
{
    let ghost before = pool@;
    let mut i: usize = 0;
    while i < tokens.len()
        invariant
            i <= tokens@.len(),
            pool@ == before + tokens@.take(i as int),
        decreases tokens@.len() - i,
    {
        pool.push(tokens[i]);
        i = i + 1;
        assert(pool@ =~= before + tokens@.take(i as int));
    }
    assert(tokens@.take(i as int) =~= tokens@);
}

fn check_stands_at(pool: &Vec<u32>, last: &[u32], n: usize, i: usize) -> (b: bool)
    requires
        n <= last@.len(),
        i + n <= pool@.len(),
    ensures
        b == stands_at(pool@, last@.skip(last@.len() - n), i as int),
{
    let base: usize = last.len() - n;
    let ghost pattern = last@.skip(base as int);
    let ghost there = pool@.subrange(i as int, i + n);
    let mut k: usize = 0;
    while k < n
        invariant
            base + n == last.len(),
            i + n <= pool.len(),
            k <= n,
            pattern == last@.skip(base as int),
            there == pool@.subrange(i as int, i + n),
            forall|j: int| 0 <= j < k ==> there[j] == pattern[j],
        decreases n - k,
    {
        if pool[i + k] != last[base + k] {
            assert(there[k as int] != pattern[k as int]);
            return false;
        }
        k = k + 1;
    }
    assert(there =~= pattern);
    true
}

impl PromptLookup {
    pub fn new(ngram_sizes: Vec<usize>, max_copy_tokens: usize) -> (p: PromptLookup)
        ensures
            p.ngram_sizes == ngram_sizes,
            p.max_copy_tokens == max_copy_tokens,
            p.context_pool@.len() == 0,
    {
        PromptLookup { ngram_sizes, max_copy_tokens, context_pool: Vec::new() }
    }

    /// Adds the latest tokens to the pool.
    pub fn append_context(&mut self, tokens: &[u32])
        ensures
            final(self).context_pool@ == old(self).context_pool@ + tokens@,
            final(self).ngram_sizes == old(self).ngram_sizes,
            final(self).max_copy_tokens == old(self).max_copy_tokens,
    {
        append_all(&mut self.context_pool, tokens);
    }

    /// Adds a recovered document to the pool, apart from what is there already.
    pub fn inject_lancedb_context(&mut self, recovered_tokens: &[u32])
        ensures
            final(self).context_pool@ == if old(self).context_pool@.len() == 0 {
                recovered_tokens@
            } else {
                old(self).context_pool@.push(BOUNDARY) + recovered_tokens@
            },
            final(self).ngram_sizes == old(self).ngram_sizes,
            final(self).max_copy_tokens == old(self).max_copy_tokens,
    {
        if self.context_pool.len() > 0 {
            self.context_pool.push(BOUNDARY);
        }
        append_all(&mut self.context_pool, recovered_tokens);
        assert(Seq::<u32>::empty() + recovered_tokens@ =~= recovered_tokens@);
        assert(old(self).context_pool@.len() == 0 ==> old(self).context_pool@
            =~= Seq::<u32>::empty());
    }

    /// Empties the pool.
    pub fn clear(&mut self)
        ensures
            final(self).context_pool@.len() == 0,
            final(self).ngram_sizes == old(self).ngram_sizes,
            final(self).max_copy_tokens == old(self).max_copy_tokens,
    {
        self.context_pool.clear();
    }

    /// A draft for what follows `last_tokens`. The pattern lengths are tried in
    /// their order; for each the latest occurrence in the pool counts.
    pub fn lookup(&self, last_tokens: &[u32]) -> (r: Option<Vec<u32>>)
        ensures
            ({
                let want = if last_tokens@.len() == 0 || self.context_pool@.len() == 0 {
                    None
                } else {
                    draft_for(
                        self.context_pool@,
                        last_tokens@,
                        self.ngram_sizes@,
                        self.max_copy_tokens as nat,
                    )
                };
                match r {
                    Some(d) => want == Some(d@),
                    None => want is None,
                }
            }),
    {
        if self.context_pool.len() == 0 || last_tokens.len() == 0 {
            return None;
        }
        let ghost pool = self.context_pool@;
        let ghost max = self.max_copy_tokens as nat;
        let ghost whole = draft_for(pool, last_tokens@, self.ngram_sizes@, max);
        let len: usize = self.context_pool.len();
        let mut s: usize = 0;
        assert(self.ngram_sizes@.skip(0) =~= self.ngram_sizes@);
        while s < self.ngram_sizes.len()
            invariant
                s <= self.ngram_sizes@.len(),
                pool == self.context_pool@,
                len == pool.len(),
                max == self.max_copy_tokens,
                pool.len() > 0,
                last_tokens@.len() > 0,
                whole == draft_for(pool, last_tokens@, self.ngram_sizes@, max),
                whole == draft_for(pool, last_tokens@, self.ngram_sizes@.skip(s as int), max),
            decreases self.ngram_sizes@.len() - s,
        {
            let n: usize = self.ngram_sizes[s];
            let ghost rest = draft_for(pool, last_tokens@, self.ngram_sizes@.skip(s + 1), max);
            assert(self.ngram_sizes@.skip(s as int).skip(1) =~= self.ngram_sizes@.skip(s + 1));
            if n <= last_tokens.len() && n <= len {
                let ghost pattern = last_tokens@.skip(last_tokens@.len() - n);
                let mut i: usize = len - n;
                while i > 0
                    invariant
                        pool == self.context_pool@,
                        len == pool.len(),
                        max == self.max_copy_tokens,
                        pool.len() > 0,
                        last_tokens@.len() > 0,
                        n <= last_tokens@.len(),
                        n <= len,
                        pattern == last_tokens@.skip(last_tokens@.len() - n),
                        i + n <= len,
                        whole == draft_for(pool, last_tokens@, self.ngram_sizes@, max),
                        whole == match draft_before(pool, pattern, i as int, max) {
                            Some(d) => Some(d),
                            None => rest,
                        },
                    decreases i,
                {
                    i = i - 1;
                    if check_stands_at(&self.context_pool, last_tokens, n, i) {
                        let next: usize = i + n;
                        let mut k: usize = 0;
                        while k < self.max_copy_tokens && k < len - next && self.context_pool[next
                            + k] != BOUNDARY
                            invariant
                                pool == self.context_pool@,
                                len == pool.len(),
                                max == self.max_copy_tokens,
                                next <= len,
                                k <= self.max_copy_tokens,
                                k <= len - next,
                                copy_len(pool, next as int, max) == k + copy_len(
                                    pool,
                                    next + k,
                                    (max - k) as nat,
                                ),
                            decreases len - next - k,
                        {
                            k = k + 1;
                        }
                        if k > 0 {
                            return Some(copy_range(&self.context_pool, next, next + k));
                        }
                    }
                }
            }
            s = s + 1;
        }
        None
    }
}

/// The last `n` of the last tokens stand at `i` of the pool, and a token of the same
/// document follows them there.
pub open spec fn offers(pool: Seq<u32>, last: Seq<u32>, n: int, i: int) -> bool {
    &&& 0 <= n <= last.len()
    &&& 0 <= i
    &&& i + n < pool.len()
    &&& pool.subrange(i, i + n) == last.subrange(last.len() - n, last.len() as int)
    &&& pool[i + n] != BOUNDARY
}

/// `d` is all that may be copied from `from` on: it stops at the limit, at the end of the
/// pool or at the end of the document, and at nothing else.
pub open spec fn is_whole_copy(pool: Seq<u32>, from: int, d: Seq<u32>, max: nat) -> bool {
    &&& d.len() <= max
    &&& 0 <= from
    &&& from + d.len() <= pool.len()
    &&& d == pool.subrange(from, from + d.len())
    &&& forall|k: int| 0 <= k < d.len() ==> #[trigger] d[k] != BOUNDARY
    &&& d.len() == max || from + d.len() == pool.len() || pool[from + d.len()] == BOUNDARY
}

/// A lookup copies what followed the latest place of the pool that offers something, for
/// the first of the sizes for which a place does. Where a place offers something for any
/// of the sizes, the lookup finds one. The result is the size's position and the place.
pub proof fn lookups_copy_what_followed(
    pool: Seq<u32>,
    last: Seq<u32>,
    sizes: Seq<usize>,
    max: nat,
) -> (place: (int, int))
    requires
        max > 0,
    ensures
        match draft_for(pool, last, sizes, max) {
            Some(d) => {
                &&& 0 <= place.0 < sizes.len()
                &&& offers(pool, last, sizes[place.0] as int, place.1)
                &&& forall|i: int|
                    i > place.1 ==> !#[trigger] offers(pool, last, sizes[place.0] as int, i)
                &&& forall|k: int, i: int|
                    0 <= k < place.0 ==> !#[trigger] offers(pool, last, sizes[k] as int, i)
                &&& d.len() > 0
                &&& is_whole_copy(pool, place.1 + sizes[place.0], d, max)
            },
            None => forall|k: int, i: int|
                0 <= k < sizes.len() ==> !#[trigger] offers(pool, last, sizes[k] as int, i),
        },
    decreases sizes.len(),
{
    if sizes.len() == 0 {
        (0int, 0int)
    } else {
        let n = sizes[0] as int;
        let rest = sizes.skip(1);
        let later = lookups_copy_what_followed(pool, last, rest, max);
        assert forall|k: int| 0 < k < sizes.len() implies #[trigger] sizes[k] == rest[k - 1] by {}
        if last.len() < n || pool.len() < n {
            assert(forall|i: int| !#[trigger] offers(pool, last, n, i));
            assert forall|k: int, i: int|
                0 <= k < later.0 + 1 && k < sizes.len() && (draft_for(pool, last, rest, max) is None
                    || k < later.0 + 1) && draft_for(
                    pool,
                    last,
                    rest,
                    max,
                ) is Some implies !#[trigger] offers(pool, last, sizes[k] as int, i) by {
                if k > 0 {
                    assert(!offers(pool, last, rest[k - 1] as int, i));
                }
            }
            assert forall|k: int, i: int|
                0 <= k < sizes.len() && draft_for(
                    pool,
                    last,
                    rest,
                    max,
                ) is None implies !#[trigger] offers(pool, last, sizes[k] as int, i) by {
                if k > 0 {
                    assert(!offers(pool, last, rest[k - 1] as int, i));
                }
            }
            (later.0 + 1, later.1)
        } else {
            let pattern = last.skip(last.len() - n);
            assert(pattern =~= last.subrange(last.len() - n, last.len() as int));
            let i = latest_offer(pool, last, n, pool.len() - n, max);
            match draft_before(pool, pattern, pool.len() - n, max) {
                Some(d) => (0int, i),
                None => {
                    assert forall|k: int, i: int|
                        0 <= k < later.0 + 1 && draft_for(
                            pool,
                            last,
                            rest,
                            max,
                        ) is Some implies !#[trigger] offers(pool, last, sizes[k] as int, i) by {
                        if k > 0 {
                            assert(!offers(pool, last, rest[k - 1] as int, i));
                        }
                    }
                    assert forall|k: int, i: int|
                        0 <= k < sizes.len() && draft_for(
                            pool,
                            last,
                            rest,
                            max,
                        ) is None implies !#[trigger] offers(pool, last, sizes[k] as int, i) by {
                        if k > 0 {
                            assert(!offers(pool, last, rest[k - 1] as int, i));
                        }
                    }
                    (later.0 + 1, later.1)
                },
            }
        }
    }
}

proof fn latest_offer(pool: Seq<u32>, last: Seq<u32>, n: int, hi: int, max: nat) -> (place: int)
    requires
        max > 0,
        0 <= n <= last.len(),
        hi <= pool.len() - n,
    ensures
        match draft_before(pool, last.skip(last.len() - n), hi, max) {
            Some(d) => {
                &&& place < hi
                &&& offers(pool, last, n, place)
                &&& forall|i: int| place < i < hi ==> !#[trigger] offers(pool, last, n, i)
                &&& d.len() > 0
                &&& is_whole_copy(pool, place + n, d, max)
            },
            None => forall|i: int| i < hi ==> !#[trigger] offers(pool, last, n, i),
        },
    decreases hi,
{
    let pattern = last.skip(last.len() - n);
    assert(pattern =~= last.subrange(last.len() - n, last.len() as int));
    if hi <= 0 {
        0
    } else {
        let next = hi - 1 + n;
        whole_copy(pool, next, max);
        if stands_at(pool, pattern, hi - 1) && copy_len(pool, next, max) > 0 {
            hi - 1
        } else {
            assert(!offers(pool, last, n, hi - 1));
            latest_offer(pool, last, n, hi - 1, max)
        }
    }
}

proof fn whole_copy(pool: Seq<u32>, from: int, max: nat)
    requires
        0 <= from <= pool.len(),
    ensures
        from + copy_len(pool, from, max) <= pool.len(),
        is_whole_copy(pool, from, pool.subrange(from, from + copy_len(pool, from, max)), max),
    decreases max,
{
    if !(max == 0 || from >= pool.len() || pool[from] == BOUNDARY) {
        whole_copy(pool, from + 1, (max - 1) as nat);
        let n = copy_len(pool, from, max);
        let d = pool.subrange(from, from + n);
        let e = pool.subrange(from + 1, from + n);
        assert forall|k: int| 0 <= k < d.len() implies #[trigger] d[k] != BOUNDARY by {
            if k > 0 {
                assert(d[k] == e[k - 1]);
            }
        }
    }
}

} // verus!
