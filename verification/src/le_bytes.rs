//! Little-endian words in byte sequences.

use vstd::prelude::*;

verus! {

/// The bytes of `x`, least significant first.
#[verifier::opaque]
pub open spec fn le32_bytes(x: u32) -> Seq<u8> {
    seq![
        (x % 256) as u8,
        (x / 256 % 256) as u8,
        (x / 65536 % 256) as u8,
        (x / 16777216) as u8,
    ]
}

/// The word whose bytes stand in `s` from `p` on.
pub open spec fn le32(s: Seq<u8>, p: int) -> u32 {
    (s[p] + 256 * s[p + 1] + 65536 * s[p + 2] + 16777216 * s[p + 3]) as u32
}

/// The half word whose bytes stand in `s` from `p` on.
pub open spec fn le16(s: Seq<u8>, p: int) -> u16 {
    (s[p] + 256 * s[p + 1]) as u16
}

/// The bytes of the words of `s`, one after the other.
pub open spec fn words(s: Seq<u32>) -> Seq<u8>
    decreases s.len(),
{
    if s.len() == 0 {
        Seq::empty()
    } else {
        le32_bytes(s[0]) + words(s.skip(1))
    }
}

/// The `n` words whose bytes stand in `s` from `p` on.
pub open spec fn words_at(s: Seq<u8>, p: int, n: nat) -> Seq<u32> {
    Seq::new(n, |i: int| le32(s, p + 4 * i))
}

/// Four bytes to a word.
pub broadcast proof fn le32_bytes_len(x: u32)
    ensures
        #[trigger] le32_bytes(x).len() == 4,
{
    reveal(le32_bytes);
}

/// A word read between what stands before and after it is the word.
pub proof fn le32_between(before: Seq<u8>, x: u32, after: Seq<u8>)
    ensures
        le32(before + le32_bytes(x) + after, before.len() as int) == x,
{
    broadcast use le32_bytes_len;

    let s = before + le32_bytes(x) + after;
    let p = before.len() as int;
    assert(s.subrange(p, p + 4) =~= le32_bytes(x));
    le32_reads_back(s, p, x);
}

/// Words read between what stands before and after them are the words.
pub proof fn words_between(before: Seq<u8>, w: Seq<u32>, after: Seq<u8>)
    ensures
        words_at(before + words(w) + after, before.len() as int, w.len()) == w,
{
    words_len(w);
    let s = before + words(w) + after;
    let p = before.len() as int;
    assert(s.subrange(p, p + 4 * w.len()) =~= words(w));
    words_read_back(s, p, w);
}

/// A word read where its bytes stand is the word.
pub proof fn le32_reads_back(s: Seq<u8>, p: int, x: u32)
    requires
        0 <= p,
        p + 4 <= s.len(),
        s.subrange(p, p + 4) == le32_bytes(x),
    ensures
        le32(s, p) == x,
{
    reveal(le32_bytes);
    let b = s.subrange(p, p + 4);
    assert(b[0] == s[p] && b[1] == s[p + 1] && b[2] == s[p + 2] && b[3] == s[p + 3]);
}

/// Four bytes per word.
pub proof fn words_len(s: Seq<u32>)
    ensures
        words(s).len() == 4 * s.len(),
    decreases s.len(),
{
    broadcast use le32_bytes_len;

    if s.len() > 0 {
        words_len(s.skip(1));
    }
}

/// Words read where their bytes stand are the words.
pub proof fn words_read_back(s: Seq<u8>, p: int, w: Seq<u32>)
    requires
        0 <= p,
        p + 4 * w.len() <= s.len(),
        s.subrange(p, p + 4 * w.len()) == words(w),
    ensures
        words_at(s, p, w.len()) == w,
    decreases w.len(),
{
    broadcast use le32_bytes_len;

    if w.len() > 0 {
        let rest = w.skip(1);
        let b = s.subrange(p, p + 4 * w.len());
        words_len(rest);
        assert(b.subrange(0, 4) =~= le32_bytes(w[0]));
        assert(s.subrange(p, p + 4) =~= b.subrange(0, 4));
        le32_reads_back(s, p, w[0]);
        assert(b.subrange(4, 4 * w.len() as int) =~= words(rest));
        assert(s.subrange(p + 4, p + 4 + 4 * rest.len()) =~= b.subrange(4, 4 * w.len() as int));
        words_read_back(s, p + 4, rest);
        assert forall|i: int| 0 <= i < w.len() implies words_at(s, p, w.len())[i] == w[i] by {
            if i > 0 {
                assert(words_at(s, p + 4, rest.len())[i - 1] == rest[i - 1]);
                assert(p + 4 + 4 * (i - 1) == p + 4 * i);
            }
        }
    }
    assert(words_at(s, p, w.len()) =~= w);
}

/// Appends the bytes of `x`.
pub fn push_u32(out: &mut Vec<u8>, x: u32)
    ensures
        final(out)@ == old(out)@ + le32_bytes(x),
{
    reveal(le32_bytes);
    out.push((x % 256) as u8);
    out.push((x / 256 % 256) as u8);
    out.push((x / 65536 % 256) as u8);
    out.push((x / 16777216) as u8);
    assert(out@ =~= old(out)@ + le32_bytes(x));
}

/// Appends the bytes of the words of `w`.
pub fn push_words(out: &mut Vec<u8>, w: &Vec<u32>)
    ensures
        final(out)@ == old(out)@ + words(w@),
{
    let ghost total = out@ + words(w@);
    let mut i: usize = 0;
    assert(w@.skip(0) =~= w@);
    while i < w.len()
        invariant
            i <= w@.len(),
            out@ + words(w@.skip(i as int)) == total,
        decreases w@.len() - i,
    {
        let ghost before = out@;
        push_u32(out, w[i]);
        proof {
            assert(w@.skip(i as int).skip(1) =~= w@.skip(i + 1));
            assert(out@ + words(w@.skip(i + 1)) =~= before + words(w@.skip(i as int)));
        }
        i = i + 1;
    }
    assert(out@ =~= total);
}

/// Appends `bytes`.
pub fn push_bytes(out: &mut Vec<u8>, bytes: &[u8])
    ensures
        final(out)@ == old(out)@ + bytes@,
{
    let ghost before = out@;
    let mut i: usize = 0;
    while i < bytes.len()
        invariant
            i <= bytes@.len(),
            out@ == before + bytes@.take(i as int),
        decreases bytes@.len() - i,
    {
        out.push(bytes[i]);
        i = i + 1;
        assert(out@ =~= before + bytes@.take(i as int));
    }
    assert(bytes@.take(i as int) =~= bytes@);
}

/// The word at `p`.
pub fn read_u32(s: &[u8], p: usize) -> (x: u32)
    requires
        p + 4 <= s@.len(),
    ensures
        x == le32(s@, p as int),
{
    (s[p] as u32) + 256 * (s[p + 1] as u32) + 65536 * (s[p + 2] as u32) + 16777216 * (s[p
        + 3] as u32)
}

/// The half word at `p`.
pub fn read_u16(s: &[u8], p: usize) -> (x: u16)
    requires
        p + 2 <= s@.len(),
    ensures
        x == le16(s@, p as int),
{
    (s[p] as u16) + 256 * (s[p + 1] as u16)
}

/// The `n` words from `p` on.
pub fn read_words(s: &[u8], p: usize, n: usize) -> (w: Vec<u32>)
    requires
        p + 4 * n <= s@.len(),
    ensures
        w@ == words_at(s@, p as int, n as nat),
{
    let mut w: Vec<u32> = Vec::new();
    let mut i: usize = 0;
    let mut q: usize = p;
    let total: usize = s.len();
    while i < n
        invariant
            total == s@.len(),
            p + 4 * n <= total,
            i <= n,
            q == p + 4 * i,
            w@ == words_at(s@, p as int, i as nat),
        decreases n - i,
    {
        w.push(read_u32(s, q));
        i = i + 1;
        q = q + 4;
        assert(w@ =~= words_at(s@, p as int, i as nat));
    }
    w
}

/// The bytes `s[from..to]`.
pub fn copy_bytes(s: &[u8], from: usize, to: usize) -> (r: Vec<u8>)
    requires
        from <= to <= s@.len(),
    ensures
        r@ == s@.subrange(from as int, to as int),
{
    let mut r: Vec<u8> = Vec::new();
    let mut i: usize = from;
    while i < to
        invariant
            from <= i <= to <= s@.len(),
            r@ == s@.subrange(from as int, i as int),
        decreases to - i,
    {
        r.push(s[i]);
        i = i + 1;
        assert(r@ =~= s@.subrange(from as int, i as int));
    }
    r
}

/// The number that four bytes stand for, the least significant first.
pub open spec fn number_of_bytes(a: u8, b: u8, c: u8, d: u8) -> int {
    a + 256 * b + 65536 * c + 16777216 * d
}

/// A word is written as the four bytes that stand for it, the least significant first,
/// and read from them.
pub proof fn words_are_little_endian(x: u32, s: Seq<u8>, p: int)
    requires
        0 <= p,
        p + 4 <= s.len(),
    ensures
        le32_bytes(x).len() == 4,
        x == number_of_bytes(
            le32_bytes(x)[0],
            le32_bytes(x)[1],
            le32_bytes(x)[2],
            le32_bytes(x)[3],
        ),
        le32(s, p) == number_of_bytes(s[p], s[p + 1], s[p + 2], s[p + 3]),
        le16(s, p) == number_of_bytes(s[p], s[p + 1], 0, 0),
{
    reveal(le32_bytes);
}

/// Words stand one after the other, four bytes each.
pub proof fn words_stand_in_a_row(w: Seq<u32>, i: int)
    requires
        0 <= i < w.len(),
    ensures
        words(w).len() == 4 * w.len(),
        words(w).subrange(4 * i, 4 * i + 4) == le32_bytes(w[i]),
    decreases w.len(),
{
    broadcast use le32_bytes_len;

    words_len(w);
    let rest = w.skip(1);
    words_len(rest);
    if i == 0 {
        assert(words(w).subrange(0, 4) =~= le32_bytes(w[0]));
    } else {
        words_stand_in_a_row(rest, i - 1);
        assert(words(w).subrange(4 * i, 4 * i + 4) =~= words(rest).subrange(
            4 * (i - 1),
            4 * (i - 1) + 4,
        ));
        assert(rest[i - 1] == w[i]);
    }
}

} // verus!
