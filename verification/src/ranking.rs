//! Ranking by key, largest first, with ties in their original order.

use vstd::prelude::*;

verus! {

/// In a ranking by `keys`, index `i` comes before index `j`.
pub open spec fn precedes(keys: Seq<i128>, i: int, j: int) -> bool {
    keys[i] > keys[j] || (keys[i] == keys[j] && i < j)
}

/// `r` holds indices from `lo` up to `hi`, each one before those that follow it.
pub open spec fn ranks_range(keys: Seq<i128>, lo: int, hi: int, r: Seq<usize>) -> bool {
    &&& r.len() == hi - lo
    &&& forall|a: int| 0 <= a < r.len() ==> lo <= #[trigger] r[a] < hi
    &&& forall|a: int, b: int|
        0 <= a < b < r.len() ==> precedes(keys, #[trigger] r[a] as int, #[trigger] r[b] as int)
}

/// `r` is the ranking of all indices of `keys`.
pub open spec fn is_ranking(keys: Seq<i128>, r: Seq<usize>) -> bool {
    ranks_range(keys, 0, keys.len() as int, r)
}

/// The ranking of all indices of `keys`.
pub open spec fn ranking_of(keys: Seq<i128>) -> Seq<usize> {
    choose|r: Seq<usize>| is_ranking(keys, r)
}

/// No index occurs twice in a ranking, and every index occurs in it.
pub proof fn ranking_is_a_permutation(keys: Seq<i128>, r: Seq<usize>)
    requires
        is_ranking(keys, r),
        keys.len() <= usize::MAX,
    ensures
        r.no_duplicates(),
        forall|i: int| 0 <= i < keys.len() ==> #[trigger] r.contains(i as usize),
{
    assert(r.no_duplicates()) by {
        assert forall|a: int, b: int| 0 <= a < b < r.len() implies r[a] != r[b] by {
            assert(precedes(keys, r[a] as int, r[b] as int));
        }
    }
    assert forall|i: int| 0 <= i < keys.len() implies #[trigger] r.contains(i as usize) by {
        if !r.contains(i as usize) {
            let s = r.to_set();
            let others = Seq::new((keys.len() - 1) as nat, |k: int|
                if k < i {
                    k as usize
                } else {
                    (k + 1) as usize
                });
            r.unique_seq_to_set();
            assert(others.no_duplicates());
            others.unique_seq_to_set();
            assert(s.subset_of(others.to_set())) by {
                assert forall|x: usize| s.contains(x) implies others.to_set().contains(x) by {
                    let a = choose|a: int| 0 <= a < r.len() && r[a] == x;
                    assert(0 <= r[a] < keys.len());
                    assert(x != i);
                    if x < i {
                        assert(others[x as int] == x);
                    } else {
                        assert(others[x - 1] == x);
                    }
                }
            }
            vstd::set_lib::lemma_len_subset(s, others.to_set());
            assert(false);
        }
    }
}

/// Whatever a ranking lists earlier has a key at least as large.
pub proof fn ranking_descends(keys: Seq<i128>, r: Seq<usize>, a: int, b: int)
    requires
        is_ranking(keys, r),
        0 <= a <= b < r.len(),
    ensures
        keys[r[a] as int] >= keys[r[b] as int],
{
    if a < b {
        assert(precedes(keys, r[a] as int, r[b] as int));
    }
}

/// Two rankings by the same keys are the same.
pub proof fn rankings_agree(keys: Seq<i128>, r: Seq<usize>, s: Seq<usize>)
    requires
        is_ranking(keys, r),
        is_ranking(keys, s),
        keys.len() <= usize::MAX,
    ensures
        r == s,
{
    rankings_agree_up_to(keys, r, s, r.len() as int);
    assert(r =~= s);
}

proof fn rankings_agree_up_to(keys: Seq<i128>, r: Seq<usize>, s: Seq<usize>, n: int)
    requires
        is_ranking(keys, r),
        is_ranking(keys, s),
        keys.len() <= usize::MAX,
        0 <= n <= r.len(),
    ensures
        forall|a: int| 0 <= a < n ==> r[a] == s[a],
    decreases n,
{
    if n > 0 {
        rankings_agree_up_to(keys, r, s, n - 1);
        ranking_is_a_permutation(keys, r);
        ranking_is_a_permutation(keys, s);
        let x = r[n - 1];
        let y = s[n - 1];
        if x != y {
            assert(s.contains(x as int as usize));
            let a = choose|a: int| 0 <= a < s.len() && s[a] == x;
            assert(r.contains(y as int as usize));
            let b = choose|b: int| 0 <= b < r.len() && r[b] == y;
            assert(a > n - 1) by {
                if a < n - 1 {
                    assert(r[a] == s[a]);
                }
            }
            assert(b > n - 1) by {
                if b < n - 1 {
                    assert(r[b] == s[b]);
                }
            }
            assert(precedes(keys, s[n - 1] as int, s[a] as int));
            assert(precedes(keys, r[n - 1] as int, r[b] as int));
        }
    }
}

/// There is a ranking of all indices of `keys`.
pub proof fn ranking_exists(keys: Seq<i128>)
    requires
        keys.len() <= usize::MAX,
    ensures
        is_ranking(keys, ranking_of(keys)),
{
    let r = some_ranking(keys, keys.len());
    assert(is_ranking(keys, r));
}

proof fn some_ranking(keys: Seq<i128>, n: nat) -> (r: Seq<usize>)
    requires
        n <= keys.len() <= usize::MAX,
    ensures
        ranks_range(keys, 0, n as int, r),
    decreases n,
{
    if n == 0 {
        Seq::empty()
    } else {
        let r = some_ranking(keys, (n - 1) as nat);
        let k = insertion_point(keys, r, keys[n - 1], r.len());
        let s = r.insert(k as int, (n - 1) as usize);
        assert forall|a: int, b: int| 0 <= a < b < s.len() implies precedes(
            keys,
            #[trigger] s[a] as int,
            #[trigger] s[b] as int,
        ) by {
            if b < k {
                assert(s[a] == r[a] && s[b] == r[b]);
            } else if b == k {
                assert(s[a] == r[a]);
            } else if a < k {
                assert(s[a] == r[a] && s[b] == r[b - 1]);
            } else if a == k {
                assert(s[b] == r[b - 1]);
            } else {
                assert(s[a] == r[a - 1] && s[b] == r[b - 1]);
            }
        }
        s
    }
}

/// Where a key goes behind all that are at least as large.
proof fn insertion_point(keys: Seq<i128>, r: Seq<usize>, key: i128, hi: nat) -> (k: nat)
    requires
        hi <= r.len(),
        ranks_range(keys, 0, r.len() as int, r),
        r.len() <= keys.len(),
        forall|b: int| hi <= b < r.len() ==> keys[#[trigger] r[b] as int] < key,
    ensures
        k <= r.len(),
        forall|a: int| 0 <= a < k ==> keys[#[trigger] r[a] as int] >= key,
        forall|b: int| k <= b < r.len() ==> keys[#[trigger] r[b] as int] < key,
    decreases hi,
{
    if hi == 0 {
        0
    } else if keys[r[hi - 1] as int] < key {
        insertion_point(keys, r, key, (hi - 1) as nat)
    } else {
        assert forall|a: int| 0 <= a < hi implies keys[#[trigger] r[a] as int] >= key by {
            if a < hi - 1 {
                assert(precedes(keys, r[a] as int, r[hi - 1] as int));
            }
        }
        hi
    }
}

fn comes_before(keys: &Vec<i128>, i: usize, j: usize) -> (b: bool)
    requires
        i < keys@.len(),
        j < keys@.len(),
    ensures
        b == precedes(keys@, i as int, j as int),
{
    keys[i] > keys[j] || (keys[i] == keys[j] && i < j)
}

fn merge(keys: &Vec<i128>, l: &Vec<usize>, r: &Vec<usize>, lo: usize, mid: usize, hi: usize) -> (out:
    Vec<usize>)
    requires
        lo <= mid <= hi <= keys@.len(),
        ranks_range(keys@, lo as int, mid as int, l@),
        ranks_range(keys@, mid as int, hi as int, r@),
    ensures
        ranks_range(keys@, lo as int, hi as int, out@),
{
    let mut out: Vec<usize> = Vec::new();
    let mut i: usize = 0;
    let mut j: usize = 0;
    while i < l.len() || j < r.len()
        invariant
            lo <= mid <= hi <= keys@.len(),
            ranks_range(keys@, lo as int, mid as int, l@),
            ranks_range(keys@, mid as int, hi as int, r@),
            i <= l@.len(),
            j <= r@.len(),
            out@.len() == i + j,
            forall|a: int| 0 <= a < out@.len() ==> lo <= #[trigger] out@[a] < hi,
            forall|a: int, b: int|
                0 <= a < b < out@.len() ==> precedes(
                    keys@,
                    #[trigger] out@[a] as int,
                    #[trigger] out@[b] as int,
                ),
            forall|a: int, b: int|
                0 <= a < out@.len() && i <= b < l@.len() ==> precedes(
                    keys@,
                    #[trigger] out@[a] as int,
                    #[trigger] l@[b] as int,
                ),
            forall|a: int, b: int|
                0 <= a < out@.len() && j <= b < r@.len() ==> precedes(
                    keys@,
                    #[trigger] out@[a] as int,
                    #[trigger] r@[b] as int,
                ),
        decreases l@.len() - i + r@.len() - j,
    {
        if j >= r.len() || (i < l.len() && comes_before(keys, l[i], r[j])) {
            let x: usize = l[i];
            assert(forall|b: int|
                j <= b < r@.len() ==> precedes(keys@, x as int, #[trigger] r@[b] as int)) by {
                assert forall|b: int| j <= b < r@.len() implies precedes(
                    keys@,
                    x as int,
                    #[trigger] r@[b] as int,
                ) by {
                    if b > j {
                        assert(precedes(keys@, r@[j as int] as int, r@[b] as int));
                    }
                }
            }
            out.push(x);
            i = i + 1;
        } else {
            let x: usize = r[j];
            assert(forall|b: int|
                i <= b < l@.len() ==> precedes(keys@, x as int, #[trigger] l@[b] as int)) by {
                assert forall|b: int| i <= b < l@.len() implies precedes(
                    keys@,
                    x as int,
                    #[trigger] l@[b] as int,
                ) by {
                    assert(l@[i as int] < mid <= x);
                    if b > i {
                        assert(precedes(keys@, l@[i as int] as int, l@[b] as int));
                    }
                }
            }
            out.push(x);
            j = j + 1;
        }
    }
    out
}

fn rank_range(keys: &Vec<i128>, lo: usize, hi: usize) -> (r: Vec<usize>)
    requires
        lo <= hi <= keys@.len(),
    ensures
        ranks_range(keys@, lo as int, hi as int, r@),
    decreases hi - lo,
{
    let mut r: Vec<usize> = Vec::new();
    if hi - lo == 0 {
        return r;
    }
    if hi - lo == 1 {
        r.push(lo);
        return r;
    }
    let mid: usize = lo + (hi - lo) / 2;
    let left = rank_range(keys, lo, mid);
    let right = rank_range(keys, mid, hi);
    merge(keys, &left, &right, lo, mid, hi)
}

/// The indices of `keys`, ranked by key, largest first; equal keys keep their
/// order.
pub fn rank_desc(keys: &Vec<i128>) -> (r: Vec<usize>)
    ensures
        is_ranking(keys@, r@),
        r@ == ranking_of(keys@),
{
    let r = rank_range(keys, 0, keys.len());
    proof {
        assert(is_ranking(keys@, r@));
        assert(keys@.len() <= usize::MAX);
        rankings_agree(keys@, r@, ranking_of(keys@));
    }
    r
}

} // verus!
