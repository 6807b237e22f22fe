//! Finding tokens by locality-sensitive hashes: tokens whose embeddings point the
//! same way share a bucket.
//!
//! The products with the hyperplanes are computed elsewhere; here they are the
//! bits of single-precision numbers.

use std::collections::HashMap;

use vstd::prelude::*;

use crate::float_bits::{check_ge, float_ge};

verus! {

broadcast use vstd::std_specs::hash::group_hash_axioms;

/// The hash of the first `n` products: bit `i` says whether product `i` is not
/// negative.
pub open spec fn hash_of(dots: Seq<u32>, n: int) -> u64
    decreases n,
{
    if n <= 0 {
        0
    } else if float_ge(dots[n - 1], 0) {
        hash_of(dots, n - 1) | (1u64 << ((n - 1) as u64))
    } else {
        hash_of(dots, n - 1)
    }
}

/// The hash of a vector, given its products with the hyperplanes of a table.
pub fn compute_hash(dots: &Vec<u32>) -> (h: u64)
    requires
        dots@.len() <= 64,
    ensures
        h == hash_of(dots@, dots@.len() as int),
{
    let mut h: u64 = 0;
    let mut i: usize = 0;
    while i < dots.len()
        invariant
            i <= dots@.len() <= 64,
            h == hash_of(dots@, i as int),
        decreases dots@.len() - i,
    {
        if check_ge(dots[i], 0) {
            h = h | (1u64 << (i as u64));
        }
        i = i + 1;
    }
    h
}

/// The tokens below `n` with this hash in a table, in their order.
pub open spec fn tokens_with(hashes: Seq<Vec<u64>>, table: int, hash: u64, n: int) -> Seq<usize>
    decreases n,
{
    if n <= 0 {
        Seq::empty()
    } else {
        let before = tokens_with(hashes, table, hash, n - 1);
        if hashes[n - 1]@[table] == hash {
            before.push((n - 1) as usize)
        } else {
            before
        }
    }
}

/// The bucket of a hash, empty where there is none.
pub open spec fn bucket(m: Map<u64, Vec<usize>>, hash: u64) -> Seq<usize> {
    if m.contains_key(hash) {
        m[hash]@
    } else {
        Seq::empty()
    }
}

/// The buckets of a table hold the tokens below `n` by their hashes.
pub open spec fn holds_tokens(
    m: Map<u64, Vec<usize>>,
    hashes: Seq<Vec<u64>>,
    table: int,
    n: int,
) -> bool {
    forall|h: u64| #[trigger] bucket(m, h) == tokens_with(hashes, table, h, n)
}

/// `all` with those of the first `n` of `more` that it does not hold yet.
pub open spec fn joined_with(all: Seq<usize>, more: Seq<usize>, n: int) -> Seq<usize>
    decreases n,
{
    if n <= 0 {
        all
    } else {
        let before = joined_with(all, more, n - 1);
        if before.contains(more[n - 1]) {
            before
        } else {
            before.push(more[n - 1])
        }
    }
}

/// The tokens in the buckets of a query in the first `n` tables, each once.
pub open spec fn candidates(
    buckets: Seq<HashMap<u64, Vec<usize>>>,
    query: Seq<u64>,
    n: int,
) -> Seq<usize>
    decreases n,
{
    if n <= 0 {
        Seq::empty()
    } else {
        let more = bucket(buckets[n - 1]@, query[n - 1]);
        joined_with(candidates(buckets, query, n - 1), more, more.len() as int)
    }
}

/// Tokens by their hashes, in several tables.
pub struct LshVocabIndex {
    pub num_tables: usize,
    pub num_hyperplanes: usize,
    pub dim: usize,
    pub buckets: Vec<HashMap<u64, Vec<usize>>>,
}

fn check_holds(v: &Vec<usize>, x: usize) -> (b: bool)
    ensures
        b == v@.contains(x),
{
    let mut i: usize = 0;
    while i < v.len()
        invariant
            i <= v@.len(),
            forall|j: int| 0 <= j < i ==> v@[j] != x,
        decreases v@.len() - i,
    {
        if v[i] == x {
            assert(v@[i as int] == x);
            return true;
        }
        i = i + 1;
    }
    false
}

fn copy_ids(v: &Vec<usize>) -> (r: Vec<usize>)
    ensures
        r@ == v@,
{
    let mut r: Vec<usize> = Vec::new();
    let mut i: usize = 0;
    while i < v.len()
        invariant
            i <= v@.len(),
            r@ == v@.take(i as int),
        decreases v@.len() - i,
    {
        r.push(v[i]);
        i = i + 1;
        assert(r@ =~= v@.take(i as int));
    }
    assert(r@ =~= v@);
    r
}

fn put(m: &mut HashMap<u64, Vec<usize>>, hash: u64, token: usize)
    ensures
        forall|h: u64| #[trigger]
            bucket(final(m)@, h) == if h == hash {
                bucket(old(m)@, h).push(token)
            } else {
                bucket(old(m)@, h)
            },
{
    let mut list: Vec<usize> = match m.get(&hash) {
        Some(v) => copy_ids(v),
        None => Vec::new(),
    };
    assert(list@ == bucket(old(m)@, hash));
    list.push(token);
    m.insert(hash, list);
}

impl LshVocabIndex {
    /// The index holds the tokens whose hashes these are.
    pub open spec fn indexes(&self, hashes: Seq<Vec<u64>>) -> bool {
        &&& self.buckets@.len() == self.num_tables
        &&& forall|t: int|
            0 <= t < self.num_tables ==> #[trigger] holds_tokens(
                self.buckets@[t]@,
                hashes,
                t,
                hashes.len() as int,
            )
    }

    /// An index of tokens, given the hashes of each in the tables.
    pub fn build(
        hashes: &Vec<Vec<u64>>,
        dim: usize,
        num_tables: usize,
        num_hyperplanes: usize,
    ) -> (x: LshVocabIndex)
        requires
            forall|i: int|
                0 <= i < hashes@.len() ==> (#[trigger] hashes@[i])@.len() == num_tables,
        ensures
            x.indexes(hashes@),
            x.num_tables == num_tables,
            x.num_hyperplanes == num_hyperplanes,
            x.dim == dim,
    {
        let mut buckets: Vec<HashMap<u64, Vec<usize>>> = Vec::new();
        let mut t: usize = 0;
        while t < num_tables
            invariant
                forall|i: int|
                    0 <= i < hashes@.len() ==> (#[trigger] hashes@[i])@.len() == num_tables,
                t <= num_tables,
                buckets@.len() == t,
                forall|s: int|
                    0 <= s < t ==> #[trigger] holds_tokens(
                        buckets@[s]@,
                        hashes@,
                        s,
                        hashes@.len() as int,
                    ),
            decreases num_tables - t,
        {
            let mut m: HashMap<u64, Vec<usize>> = HashMap::new();
            let mut i: usize = 0;
            while i < hashes.len()
                invariant
                    forall|j: int|
                        0 <= j < hashes@.len() ==> (#[trigger] hashes@[j])@.len() == num_tables,
                    t < num_tables,
                    i <= hashes@.len(),
                    holds_tokens(m@, hashes@, t as int, i as int),
                decreases hashes@.len() - i,
            {
                let ghost before = m@;
                assert(hashes@[i as int]@.len() == num_tables);
                let h: u64 = hashes[i][t];
                put(&mut m, h, i);
                assert forall|g: u64| #[trigger] bucket(m@, g) == tokens_with(
                    hashes@,
                    t as int,
                    g,
                    i + 1,
                ) by {
                    assert(bucket(before, g) == tokens_with(hashes@, t as int, g, i as int));
                }
                i = i + 1;
            }
            buckets.push(m);
            t = t + 1;
        }
        LshVocabIndex { num_tables, num_hyperplanes, dim, buckets }
    }

    /// The tokens that share a bucket with a query in some table, given the
    /// hashes of the query. Each is there once, those of earlier tables first.
    pub fn lookup(&self, query: &Vec<u64>) -> (r: Vec<usize>)
        requires
            self.buckets@.len() == self.num_tables,
            query@.len() == self.num_tables,
        ensures
            r@ == candidates(self.buckets@, query@, self.num_tables as int),
    {
        let mut r: Vec<usize> = Vec::new();
        let mut t: usize = 0;
        while t < self.num_tables
            invariant
                self.buckets@.len() == self.num_tables,
                query@.len() == self.num_tables,
                t <= self.num_tables,
                r@ == candidates(self.buckets@, query@, t as int),
            decreases self.num_tables - t,
        {
            let ghost before = r@;
            let ghost more = bucket(self.buckets@[t as int]@, query@[t as int]);
            match self.buckets[t].get(&query[t]) {
                Some(list) => {
                    assert(list@ == more);
                    let mut i: usize = 0;
                    while i < list.len()
                        invariant
                            i <= list@.len(),
                            list@ == more,
                            r@ == joined_with(before, more, i as int),
                        decreases list@.len() - i,
                    {
                        let x: usize = list[i];
                        if !check_holds(&r, x) {
                            r.push(x);
                        }
                        i = i + 1;
                    }
                },
                None => {},
            }
            t = t + 1;
        }
        r
    }
}

// ─── Laws ────────────────────────────────────────────────────────────────────

proof fn own_token_is_there(hashes: Seq<Vec<u64>>, table: int, token: int, n: int)
    requires
        0 <= token < n <= hashes.len(),
        hashes.len() <= usize::MAX,
    ensures
        tokens_with(hashes, table, hashes[token]@[table], n).contains(token as usize),
    decreases n,
{
    let h = hashes[token]@[table];
    let all = tokens_with(hashes, table, h, n);
    if token == n - 1 {
        assert(all.last() == token as usize);
    } else {
        own_token_is_there(hashes, table, token, n - 1);
        let before = tokens_with(hashes, table, h, n - 1);
        let k = choose|k: int| 0 <= k < before.len() && before[k] == token as usize;
        assert(all[k] == token as usize);
    }
}

proof fn joining_keeps(all: Seq<usize>, more: Seq<usize>, n: int, x: usize)
    requires
        0 <= n <= more.len(),
        all.contains(x) || more.take(n).contains(x),
    ensures
        joined_with(all, more, n).contains(x),
    decreases n,
{
    let r = joined_with(all, more, n);
    if n > 0 {
        let before = joined_with(all, more, n - 1);
        if all.contains(x) || more.take(n - 1).contains(x) {
            joining_keeps(all, more, n - 1, x);
            let k = choose|k: int| 0 <= k < before.len() && before[k] == x;
            assert(r[k] == x);
        } else {
            let k = choose|k: int| 0 <= k < more.take(n).len() && more.take(n)[k] == x;
            if k < n - 1 {
                assert(more.take(n - 1)[k] == x);
            }
            assert(more[n - 1] == x);
            if !before.contains(x) {
                assert(r.last() == x);
            }
        }
    }
}

proof fn candidates_keep(
    buckets: Seq<HashMap<u64, Vec<usize>>>,
    query: Seq<u64>,
    t: int,
    n: int,
    x: usize,
)
    requires
        0 <= t < n <= buckets.len(),
        bucket(buckets[t]@, query[t]).contains(x),
    ensures
        candidates(buckets, query, n).contains(x),
    decreases n,
{
    let before = candidates(buckets, query, n - 1);
    let more = bucket(buckets[n - 1]@, query[n - 1]);
    if t == n - 1 {
        assert(more.take(more.len() as int) =~= more);
    } else {
        candidates_keep(buckets, query, t, n - 1, x);
    }
    joining_keeps(before, more, more.len() as int, x);
}

/// A token is found by its own embedding, if there is a table.
pub proof fn token_is_in_its_own_bucket(x: LshVocabIndex, hashes: Seq<Vec<u64>>, token: int)
    requires
        x.indexes(hashes),
        hashes.len() <= usize::MAX,
        0 <= token < hashes.len(),
        x.num_tables > 0,
    ensures
        candidates(x.buckets@, hashes[token]@, x.num_tables as int).contains(token as usize),
{
    let query = hashes[token]@;
    assert(holds_tokens(x.buckets@[0]@, hashes, 0, hashes.len() as int));
    own_token_is_there(hashes, 0, token, hashes.len() as int);
    assert(bucket(x.buckets@[0]@, query[0]) == tokens_with(
        hashes,
        0,
        query[0],
        hashes.len() as int,
    ));
    candidates_keep(x.buckets@, query, 0, x.num_tables as int, token as usize);
}

/// No token is found twice.
pub proof fn candidates_are_distinct(
    buckets: Seq<HashMap<u64, Vec<usize>>>,
    query: Seq<u64>,
    n: int,
)
    ensures
        candidates(buckets, query, n).no_duplicates(),
    decreases n,
{
    if n > 0 {
        candidates_are_distinct(buckets, query, n - 1);
        let more = bucket(buckets[n - 1]@, query[n - 1]);
        joining_stays_distinct(candidates(buckets, query, n - 1), more, more.len() as int);
    }
}

proof fn joining_stays_distinct(all: Seq<usize>, more: Seq<usize>, n: int)
    requires
        all.no_duplicates(),
    ensures
        joined_with(all, more, n).no_duplicates(),
    decreases n,
{
    if n > 0 {
        joining_stays_distinct(all, more, n - 1);
    }
}

/// A hash holds one bit for each hyperplane: it is set where the vector lies on the
/// positive side or on the plane itself. No other bit is set.
pub proof fn bits_tell_the_sides(dots: Seq<u32>, n: int, i: u64)
    requires
        0 <= n <= dots.len(),
        n <= 64,
        i < 64,
    ensures
        (hash_of(dots, n) >> i) & 1 == if i < n && float_ge(dots[i as int], 0) {
            1u64
        } else {
            0u64
        },
    decreases n,
{
    if n <= 0 {
        assert((0u64 >> i) & 1 == 0) by (bit_vector);
    } else {
        bits_tell_the_sides(dots, n - 1, i);
        let h = hash_of(dots, n - 1);
        let j = (n - 1) as u64;
        assert(((h | (1u64 << j)) >> i) & 1 == if i == j {
            1u64
        } else {
            (h >> i) & 1
        }) by (bit_vector)
            requires
                i < 64,
                j < 64,
        ;
    }
}

/// The tokens under a hash are those whose hash it is in that table, in their order.
pub proof fn buckets_hold_their_tokens(hashes: Seq<Vec<u64>>, table: int, hash: u64, n: int)
    requires
        0 <= n <= hashes.len() <= usize::MAX,
    ensures
        ({
            let tokens = tokens_with(hashes, table, hash, n);
            &&& forall|k: int|
                0 <= k < tokens.len() ==> #[trigger] tokens[k] < n
                    && hashes[tokens[k] as int]@[table] == hash
            &&& forall|j: int, k: int|
                0 <= j < k < tokens.len() ==> #[trigger] tokens[j] < #[trigger] tokens[k]
            &&& forall|i: int|
                0 <= i < n && (#[trigger] hashes[i])@[table] == hash ==> tokens.contains(i as usize)
        }),
    decreases n,
{
    if n > 0 {
        buckets_hold_their_tokens(hashes, table, hash, n - 1);
        let before = tokens_with(hashes, table, hash, n - 1);
        let tokens = tokens_with(hashes, table, hash, n);
        assert forall|i: int|
            0 <= i < n && (#[trigger] hashes[i])@[table] == hash implies tokens.contains(
            i as usize,
        ) by {
            if i < n - 1 {
                let k = choose|k: int| 0 <= k < before.len() && before[k] == i as usize;
                assert(tokens[k] == i as usize);
            } else {
                assert(tokens[tokens.len() - 1] == i as usize);
            }
        }
    }
}

/// A token is a candidate exactly where it shares its hash with the query in at least one
/// of the tables.
pub proof fn candidates_share_a_hash(
    x: LshVocabIndex,
    hashes: Seq<Vec<u64>>,
    query: Seq<u64>,
    token: int,
)
    requires
        x.indexes(hashes),
        hashes.len() <= usize::MAX,
        0 <= token < hashes.len(),
        query.len() == x.num_tables,
    ensures
        candidates(x.buckets@, query, x.num_tables as int).contains(token as usize)
            <==> exists|t: int| 0 <= t < query.len() && hashes[token]@[t] == #[trigger] query[t],
{
    let n = x.num_tables as int;
    in_some_bucket(x.buckets@, query, n, token as usize);
    if candidates(x.buckets@, query, n).contains(token as usize) {
        let t = choose|t: int|
            0 <= t < n && bucket(x.buckets@[t]@, #[trigger] query[t]).contains(token as usize);
        assert(holds_tokens(x.buckets@[t]@, hashes, t, hashes.len() as int));
        buckets_hold_their_tokens(hashes, t, query[t], hashes.len() as int);
        let own = bucket(x.buckets@[t]@, query[t]);
        let k = choose|k: int| 0 <= k < own.len() && own[k] == token as usize;
        assert(hashes[own[k] as int]@[t] == query[t]);
    }
    if exists|t: int| 0 <= t < query.len() && hashes[token]@[t] == #[trigger] query[t] {
        let t = choose|t: int| 0 <= t < query.len() && hashes[token]@[t] == #[trigger] query[t];
        assert(holds_tokens(x.buckets@[t]@, hashes, t, hashes.len() as int));
        buckets_hold_their_tokens(hashes, t, query[t], hashes.len() as int);
        assert(bucket(x.buckets@[t]@, query[t]).contains(token as usize));
    }
}

proof fn in_some_bucket(
    buckets: Seq<HashMap<u64, Vec<usize>>>,
    query: Seq<u64>,
    n: int,
    x: usize,
)
    ensures
        candidates(buckets, query, n).contains(x) <==> exists|t: int|
            0 <= t < n && bucket(buckets[t]@, #[trigger] query[t]).contains(x),
    decreases n,
{
    if n > 0 {
        in_some_bucket(buckets, query, n - 1, x);
        let before = candidates(buckets, query, n - 1);
        let more = bucket(buckets[n - 1]@, query[n - 1]);
        in_joined(before, more, more.len() as int, x);
        assert(more.take(more.len() as int) =~= more);
        if more.contains(x) {
            assert(bucket(buckets[n - 1]@, query[n - 1]).contains(x));
        }
    }
}

proof fn in_joined(all: Seq<usize>, more: Seq<usize>, n: int, x: usize)
    requires
        0 <= n <= more.len(),
    ensures
        joined_with(all, more, n).contains(x) <==> all.contains(x) || more.take(n).contains(x),
    decreases n,
{
    if n > 0 {
        in_joined(all, more, n - 1, x);
        let before = joined_with(all, more, n - 1);
        let (a, b) = (more.take(n - 1), more.take(n));
        assert(b =~= a.push(more[n - 1]));
        if a.contains(x) {
            let k = choose|k: int| 0 <= k < a.len() && a[k] == x;
            assert(b[k] == x);
        }
        if more[n - 1] == x {
            assert(b[n - 1] == x);
        }
        if before.contains(x) {
            let k = choose|k: int| 0 <= k < before.len() && before[k] == x;
            assert(before.push(more[n - 1])[k] == x);
        }
        assert(before.push(more[n - 1])[before.len() as int] == more[n - 1]);
    }
}

} // verus!
