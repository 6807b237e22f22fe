//! The layout of compressed weight files: where their entries and tiles stand.
//!
//! A file begins with a magic number and a header. Entries of a fixed size
//! follow, one for each tensor. The weights of a tensor stand in tiles, one
//! after the other; each is a header and six runs of bytes, padded to an
//! alignment.

use vstd::prelude::*;

use crate::le_bytes::copy_bytes;

verus! {

/// The size of an entry.
pub const ENTRY_SIZE: usize = 128;

/// What a file begins with.
pub const MAGIC_SIZE: usize = 4;

/// The data begins with the magic number.
pub open spec fn has_magic(data: Seq<u8>, magic: Seq<u8>) -> bool {
    data.len() >= MAGIC_SIZE && data.take(MAGIC_SIZE as int) == magic
}

/// Whether the data begins with the magic number.
pub fn check_magic(data: &[u8], magic: &[u8]) -> (b: bool)
    ensures
        b == has_magic(data@, magic@),
{
    if data.len() < MAGIC_SIZE || magic.len() != MAGIC_SIZE {
        return false;
    }
    let ghost head = data@.take(MAGIC_SIZE as int);
    let mut i: usize = 0;
    while i < MAGIC_SIZE
        invariant
            i <= MAGIC_SIZE,
            data@.len() >= MAGIC_SIZE,
            magic@.len() == MAGIC_SIZE,
            head == data@.take(MAGIC_SIZE as int),
            forall|j: int| 0 <= j < i ==> head[j] == magic@[j],
        decreases MAGIC_SIZE - i,
    {
        if data[i] != magic[i] {
            assert(head[i as int] != magic@[i as int]);
            return false;
        }
        i = i + 1;
    }
    assert(head =~= magic@);
    true
}

/// The bytes of the entry at `at`, if the file holds them, and where the next
/// one stands.
pub fn take_entry(data: &[u8], at: usize) -> (r: Option<(Vec<u8>, usize)>)
    ensures
        match r {
            Some((bytes, next)) => {
                &&& at + ENTRY_SIZE <= data@.len()
                &&& bytes@ == data@.subrange(at as int, at + ENTRY_SIZE)
                &&& next == at + ENTRY_SIZE
            },
            None => at + ENTRY_SIZE > data@.len(),
        },
{
    if at > data.len() || data.len() - at < ENTRY_SIZE {
        return None;
    }
    Some((copy_bytes(data, at, at + ENTRY_SIZE), at + ENTRY_SIZE))
}

/// What the header of a tile says of its layout.
#[derive(Debug, Clone, Copy, PartialEq, Eq, Structural)]
pub struct TileHeader {
    pub dtype: u8,
    pub num_near: usize,
    pub num_residuals: usize,
}

/// The runs of a tile.
#[derive(Debug)]
pub struct NszTile {
    pub header: TileHeader,
    pub bitmap_match: Vec<u8>,
    pub bitmap_near: Vec<u8>,
    pub near_deltas: Vec<u8>,
    pub residual_exponents: Vec<u8>,
    pub mantissas: Vec<u8>,
    pub signs: Vec<u8>,
    pub actual_size: usize,
}

/// The bytes that hold `n` bits.
pub open spec fn bit_bytes(n: int) -> int {
    (n + 7) / 8
}

/// The bytes of a mantissa.
pub open spec fn mantissa_bytes(dtype: u8) -> int {
    if dtype == 0 {
        3
    } else {
        2
    }
}

/// The lengths of the runs of a tile.
pub open spec fn runs(h: TileHeader, actual_size: int) -> Seq<int> {
    seq![
        bit_bytes(actual_size),
        bit_bytes(actual_size),
        bit_bytes(h.num_near as int),
        h.num_residuals as int,
        actual_size * mantissa_bytes(h.dtype),
        bit_bytes(actual_size),
    ]
}

/// Where run `k` of a tile begins, counted from the tile's beginning; after the
/// last run, the size of the tile without padding.
pub open spec fn run_start(header_size: int, h: TileHeader, actual_size: int, k: int) -> int
    decreases k,
{
    if k <= 0 {
        header_size
    } else {
        run_start(header_size, h, actual_size, k - 1) + runs(h, actual_size)[k - 1]
    }
}

/// The bytes of run `k` of the tile at `at`.
pub open spec fn run(
    data: Seq<u8>,
    at: int,
    header_size: int,
    h: TileHeader,
    actual_size: int,
    k: int,
) -> Seq<u8> {
    data.subrange(
        at + run_start(header_size, h, actual_size, k),
        at + run_start(header_size, h, actual_size, k + 1),
    )
}

/// The size of a tile without padding.
pub open spec fn tile_size(header_size: int, h: TileHeader, actual_size: int) -> int {
    run_start(header_size, h, actual_size, 6)
}

/// `n` rounded up to a multiple of `alignment`.
pub open spec fn padded(n: int, alignment: int) -> int {
    if n % alignment == 0 {
        n
    } else {
        n + alignment - n % alignment
    }
}

/// Padding gives the next multiple of the alignment.
pub proof fn padded_is_the_next_multiple(n: int, alignment: int)
    requires
        0 <= n,
        0 < alignment,
    ensures
        padded(n, alignment) % alignment == 0,
        n <= padded(n, alignment) < n + alignment,
{
    let q = n / alignment;
    let r = n % alignment;
    assert(n == q * alignment + r && 0 <= r < alignment) by (nonlinear_arith)
        requires
            0 < alignment,
            q == n / alignment,
            r == n % alignment,
    ;
    if r != 0 {
        assert(padded(n, alignment) == (q + 1) * alignment) by (nonlinear_arith)
            requires
                n == q * alignment + r,
                padded(n, alignment) == n + alignment - r,
        ;
        assert(((q + 1) * alignment) % alignment == 0) by (nonlinear_arith)
            requires
                0 < alignment,
        ;
    }
}

proof fn tile_runs(header_size: int, h: TileHeader, n: int)
    requires
        0 <= n,
        0 <= header_size,
    ensures
        run_start(header_size, h, n, 0) == header_size,
        run_start(header_size, h, n, 1) == header_size + bit_bytes(n),
        run_start(header_size, h, n, 2) == header_size + 2 * bit_bytes(n),
        run_start(header_size, h, n, 3) == header_size + 2 * bit_bytes(n) + bit_bytes(
            h.num_near as int,
        ),
        run_start(header_size, h, n, 4) == header_size + 2 * bit_bytes(n) + bit_bytes(
            h.num_near as int,
        ) + h.num_residuals,
        run_start(header_size, h, n, 5) == header_size + 2 * bit_bytes(n) + bit_bytes(
            h.num_near as int,
        ) + h.num_residuals + n * mantissa_bytes(h.dtype),
        run_start(header_size, h, n, 6) == header_size + 3 * bit_bytes(n) + bit_bytes(
            h.num_near as int,
        ) + h.num_residuals + n * mantissa_bytes(h.dtype),
{
    reveal_with_fuel(run_start, 7);
}

/// How many weights tile `index` of a tensor holds: as many as are left, and no
/// more than fit.
pub fn weights_in_tile(num_weights: usize, index: usize, capacity: usize) -> (n: usize)
    requires
        index * capacity <= num_weights,
    ensures
        n == if num_weights - index * capacity < capacity {
            num_weights - index * capacity
        } else {
            capacity as int
        },
{
    let done: usize = index * capacity;
    if num_weights - done < capacity {
        num_weights - done
    } else {
        capacity
    }
}

/// The tile at `at`, whose header says `h`, and where the next one stands;
/// nothing where the file ends inside it.
pub fn take_tile(
    data: &[u8],
    at: usize,
    header_size: usize,
    h: TileHeader,
    actual_size: usize,
    alignment: usize,
) -> (r: Option<(NszTile, u128)>)
    requires
        alignment > 0,
    ensures
        ({
            let size = tile_size(header_size as int, h, actual_size as int);
            match r {
                Some((t, next)) => {
                    &&& at + size <= data@.len()
                    &&& t.header == h
                    &&& t.actual_size == actual_size
                    &&& t.bitmap_match@ == run(data@, at as int, header_size as int, h, actual_size as int, 0)
                    &&& t.bitmap_near@ == run(data@, at as int, header_size as int, h, actual_size as int, 1)
                    &&& t.near_deltas@ == run(data@, at as int, header_size as int, h, actual_size as int, 2)
                    &&& t.residual_exponents@ == run(data@, at as int, header_size as int, h, actual_size as int, 3)
                    &&& t.mantissas@ == run(data@, at as int, header_size as int, h, actual_size as int, 4)
                    &&& t.signs@ == run(data@, at as int, header_size as int, h, actual_size as int, 5)
                    &&& next == at + padded(size, alignment as int)
                },
                None => at + size > data@.len(),
            }
        }),
{
    proof {
        tile_runs(header_size as int, h, actual_size as int);
    }
    let bits: u128 = (actual_size as u128 + 7) / 8;
    let near: u128 = (h.num_near as u128 + 7) / 8;
    let mantissa: u128 = if h.dtype == 0 {
        3
    } else {
        2
    };
    let mantissas: u128 = actual_size as u128 * mantissa;
    let p1: u128 = header_size as u128 + bits;
    let p2: u128 = p1 + bits;
    let p3: u128 = p2 + near;
    let p4: u128 = p3 + h.num_residuals as u128;
    let p5: u128 = p4 + mantissas;
    let p6: u128 = p5 + bits;
    let size: u128 = p6;
    if at as u128 + size > data.len() as u128 {
        return None;
    }
    let e0: usize = at + header_size;
    let e1: usize = at + p1 as usize;
    let e2: usize = at + p2 as usize;
    let e3: usize = at + p3 as usize;
    let e4: usize = at + p4 as usize;
    let e5: usize = at + p5 as usize;
    let e6: usize = at + p6 as usize;
    let tile = NszTile {
        header: h,
        bitmap_match: copy_bytes(data, e0, e1),
        bitmap_near: copy_bytes(data, e1, e2),
        near_deltas: copy_bytes(data, e2, e3),
        residual_exponents: copy_bytes(data, e3, e4),
        mantissas: copy_bytes(data, e4, e5),
        signs: copy_bytes(data, e5, e6),
        actual_size,
    };
    let rest: u128 = size % (alignment as u128);
    let whole: u128 = if rest == 0 {
        size
    } else {
        size + alignment as u128 - rest
    };
    Some((tile, at as u128 + whole))
}

/// The runs of a tile do not overlap and fill it: each begins where the one
/// before it ends.
pub proof fn runs_fill_the_tile(
    data: Seq<u8>,
    at: int,
    header_size: int,
    h: TileHeader,
    actual_size: int,
)
    requires
        0 <= at,
        0 <= header_size,
        0 <= actual_size,
        at + tile_size(header_size, h, actual_size) <= data.len(),
    ensures
        data.subrange(at, at + tile_size(header_size, h, actual_size)) == data.subrange(
            at,
            at + header_size,
        ) + run(data, at, header_size, h, actual_size, 0) + run(
            data,
            at,
            header_size,
            h,
            actual_size,
            1,
        ) + run(data, at, header_size, h, actual_size, 2) + run(
            data,
            at,
            header_size,
            h,
            actual_size,
            3,
        ) + run(data, at, header_size, h, actual_size, 4) + run(
            data,
            at,
            header_size,
            h,
            actual_size,
            5,
        ),
{
    tile_runs(header_size, h, actual_size);
    assert(actual_size * mantissa_bytes(h.dtype) >= 0) by (nonlinear_arith)
        requires
            actual_size >= 0,
            mantissa_bytes(h.dtype) >= 0,
    ;
    assert(data.subrange(at, at + tile_size(header_size, h, actual_size)) =~= data.subrange(
        at,
        at + header_size,
    ) + run(data, at, header_size, h, actual_size, 0) + run(
        data,
        at,
        header_size,
        h,
        actual_size,
        1,
    ) + run(data, at, header_size, h, actual_size, 2) + run(
        data,
        at,
        header_size,
        h,
        actual_size,
        3,
    ) + run(data, at, header_size, h, actual_size, 4) + run(
        data,
        at,
        header_size,
        h,
        actual_size,
        5,
    ));
}

/// Where each run of a tile begins and how long it is: a bit for each weight says whether
/// it matches, a bit for each whether it is near, a bit for each near weight gives its
/// delta; a byte for each residual exponent; the mantissas, three bytes each where the
/// weights are single-precision numbers and two where they are not; and a bit for each
/// sign. Bits fill whole bytes.
pub proof fn runs_have_their_lengths(
    data: Seq<u8>,
    at: int,
    header_size: int,
    h: TileHeader,
    n: int,
    bits: int,
    near: int,
)
    requires
        0 <= at,
        0 <= header_size,
        0 <= n,
        8 * (bits - 1) < n <= 8 * bits,
        8 * (near - 1) < h.num_near <= 8 * near,
        at + tile_size(header_size, h, n) <= data.len(),
    ensures
        ({
            let width = if h.dtype == 0 {
                3int
            } else {
                2int
            };
            let first = at + header_size;
            let exponents = first + 2 * bits + near;
            let mantissas = exponents + h.num_residuals;
            let signs = mantissas + width * n;
            &&& run(data, at, header_size, h, n, 0) == data.subrange(first, first + bits)
            &&& run(data, at, header_size, h, n, 1) == data.subrange(
                first + bits,
                first + 2 * bits,
            )
            &&& run(data, at, header_size, h, n, 2) == data.subrange(first + 2 * bits, exponents)
            &&& run(data, at, header_size, h, n, 3) == data.subrange(exponents, mantissas)
            &&& run(data, at, header_size, h, n, 4) == data.subrange(mantissas, signs)
            &&& run(data, at, header_size, h, n, 5) == data.subrange(signs, signs + bits)
            &&& at + tile_size(header_size, h, n) == signs + bits
        }),
{
    reveal_with_fuel(run_start, 7);
    assert(bit_bytes(n) == bits);
    assert(bit_bytes(h.num_near as int) == near);
    let r = runs(h, n);
    let width = mantissa_bytes(h.dtype);
    assert(r[4] == width * n) by {
        assert(n * width == width * n) by (nonlinear_arith);
    }
    assert(r[0] == bits && r[1] == bits && r[2] == near && r[3] == h.num_residuals as int && r[5]
        == bits);
}

} // verus!
