//! Reading a compressed weight file step by step.
//!
//! The reader decides what is looked at next: the entry of a tensor, the header
//! of a tile, or the runs behind a header. What entries and headers mean is told
//! to it.

use vstd::prelude::*;

use crate::le_bytes::copy_bytes;
use crate::nsz::{
    padded, run, take_entry, take_tile, tile_size, weights_in_tile, NszTile, TileHeader, ENTRY_SIZE,
};

verus! {

/// The sizes that a file keeps to.
#[derive(Debug, Clone, Copy, PartialEq, Eq, Structural)]
pub struct NszLayout {
    pub header_size: usize,
    pub tile_capacity: usize,
    pub alignment: usize,
}

/// What the entry of a tensor says.
#[derive(Debug)]
pub struct NszEntry {
    pub name: String,
    pub num_weights: usize,
    pub num_tiles: usize,
    pub compressed_offset: usize,
}

/// What the entry of a tensor says, as a mathematical value.
pub struct EntryModel {
    pub name: Seq<char>,
    pub num_weights: int,
    pub num_tiles: int,
    pub offset: int,
}

impl View for NszEntry {
    type V = EntryModel;

    open spec fn view(&self) -> EntryModel {
        EntryModel {
            name: self.name@,
            num_weights: self.num_weights as int,
            num_tiles: self.num_tiles as int,
            offset: self.compressed_offset as int,
        }
    }
}

/// A tile as a mathematical value.
pub struct TileModel {
    pub header: TileHeader,
    pub actual_size: int,
    pub runs: Seq<Seq<u8>>,
}

impl View for NszTile {
    type V = TileModel;

    open spec fn view(&self) -> TileModel {
        TileModel {
            header: self.header,
            actual_size: self.actual_size as int,
            runs: seq![
                self.bitmap_match@,
                self.bitmap_near@,
                self.near_deltas@,
                self.residual_exponents@,
                self.mantissas@,
                self.signs@,
            ],
        }
    }
}

/// How many weights tile `index` of a tensor holds.
pub open spec fn tile_weights(num_weights: int, index: int, capacity: int) -> int {
    if num_weights - index * capacity < capacity {
        num_weights - index * capacity
    } else {
        capacity
    }
}

/// The tile at `at`, whose header says `h`.
pub open spec fn tile_at(
    data: Seq<u8>,
    layout: NszLayout,
    h: TileHeader,
    actual_size: int,
    at: int,
) -> TileModel {
    TileModel {
        header: h,
        actual_size,
        runs: Seq::new(6, |k: int| run(data, at, layout.header_size as int, h, actual_size, k)),
    }
}

/// A tensor whose tiles are being read.
#[derive(Debug)]
pub struct OpenTensor {
    pub entry: NszEntry,
    /// The tile that comes next.
    pub tile: usize,
    /// Where it stands.
    pub at: u128,
}

/// A tensor whose tiles are being read, as a mathematical value.
pub struct TensorModel {
    pub entry: EntryModel,
    pub tile: int,
    pub at: int,
}

impl View for OpenTensor {
    type V = TensorModel;

    open spec fn view(&self) -> TensorModel {
        TensorModel { entry: self.entry@, tile: self.tile as int, at: self.at as int }
    }
}

/// How far a file has been read, as a mathematical value.
pub struct ReaderModel {
    pub layout: NszLayout,
    pub entries_left: int,
    pub entry_pos: int,
    pub tensor: Option<TensorModel>,
}

/// The tiles of a tensor from tile `k`, which stands at `at`, as far as the file
/// holds them.
pub open spec fn tiles_from(
    data: Seq<u8>,
    layout: NszLayout,
    header_of: spec_fn(Seq<u8>) -> TileHeader,
    e: EntryModel,
    k: int,
    at: int,
) -> Seq<TileModel>
    decreases e.num_tiles - k,
{
    if k >= e.num_tiles || at + layout.header_size > data.len() {
        Seq::empty()
    } else {
        let h = header_of(data.subrange(at, at + layout.header_size));
        let n = tile_weights(e.num_weights, k, layout.tile_capacity as int);
        let size = tile_size(layout.header_size as int, h, n);
        if at + size > data.len() {
            Seq::empty()
        } else {
            seq![tile_at(data, layout, h, n, at)] + tiles_from(
                data,
                layout,
                header_of,
                e,
                k + 1,
                at + padded(size, layout.alignment as int),
            )
        }
    }
}

/// The tensors of the next `left` entries, with their tiles, as far as the file
/// holds the entries and they can be read.
pub open spec fn tensors_from(
    data: Seq<u8>,
    layout: NszLayout,
    entry_of: spec_fn(Seq<u8>) -> Option<EntryModel>,
    header_of: spec_fn(Seq<u8>) -> TileHeader,
    left: int,
    pos: int,
) -> Seq<(EntryModel, Seq<TileModel>)>
    decreases left,
{
    if left <= 0 || pos + ENTRY_SIZE > data.len() {
        Seq::empty()
    } else {
        match entry_of(data.subrange(pos, pos + ENTRY_SIZE)) {
            None => Seq::empty(),
            Some(e) => seq![(e, tiles_from(data, layout, header_of, e, 0, e.offset))]
                + tensors_from(data, layout, entry_of, header_of, left - 1, pos + ENTRY_SIZE),
        }
    }
}

impl ReaderModel {
    /// The next entry can be read.
    pub open spec fn entry_due(self, len: int) -> bool {
        self.tensor is None && self.entries_left > 0 && self.entry_pos + ENTRY_SIZE <= len
    }

    /// The header of the next tile can be read.
    pub open spec fn header_due(self, len: int) -> bool {
        match self.tensor {
            Some(t) => t.tile < t.entry.num_tiles && t.at + self.layout.header_size <= len,
            None => false,
        }
    }

    /// The tile that comes next begins within the weights of its tensor.
    pub open spec fn sensible(self) -> bool {
        match self.tensor {
            Some(t) => t.tile < t.entry.num_tiles ==> t.tile * self.layout.tile_capacity
                <= t.entry.num_weights,
            None => true,
        }
    }

    /// The open tensor has no more tiles.
    pub open spec fn after_tensor(self) -> ReaderModel {
        ReaderModel { tensor: None, ..self }
    }

    /// The entry says `e`; nothing where it cannot be read.
    pub open spec fn after_entry(self, e: Option<EntryModel>) -> ReaderModel {
        match e {
            Some(e) => ReaderModel {
                entries_left: self.entries_left - 1,
                entry_pos: self.entry_pos + ENTRY_SIZE,
                tensor: Some(TensorModel { entry: e, tile: 0, at: e.offset }),
                ..self
            },
            None => ReaderModel { entries_left: 0, ..self },
        }
    }

    /// How many weights the next tile holds.
    pub open spec fn next_weights(self) -> int {
        tile_weights(
            self.tensor->0.entry.num_weights,
            self.tensor->0.tile,
            self.layout.tile_capacity as int,
        )
    }

    /// The size of the next tile, whose header says `h`, without padding.
    pub open spec fn next_size(self, h: TileHeader) -> int {
        tile_size(self.layout.header_size as int, h, self.next_weights())
    }

    /// The header of the next tile says `h`.
    pub open spec fn after_header(self, len: int, h: TileHeader) -> ReaderModel {
        let t = self.tensor->0;
        let next = if t.at + self.next_size(h) <= len {
            TensorModel {
                tile: t.tile + 1,
                at: t.at + padded(self.next_size(h), self.layout.alignment as int),
                ..t
            }
        } else {
            TensorModel { tile: t.entry.num_tiles, ..t }
        };
        ReaderModel { tensor: Some(next), ..self }
    }

    /// The tiles of the open tensor that are still to come.
    pub open spec fn tiles_to_come(
        self,
        data: Seq<u8>,
        header_of: spec_fn(Seq<u8>) -> TileHeader,
    ) -> Seq<TileModel> {
        match self.tensor {
            Some(t) => tiles_from(data, self.layout, header_of, t.entry, t.tile, t.at),
            None => Seq::empty(),
        }
    }

    /// The tensors that are still to come.
    pub open spec fn tensors_to_come(
        self,
        data: Seq<u8>,
        entry_of: spec_fn(Seq<u8>) -> Option<EntryModel>,
        header_of: spec_fn(Seq<u8>) -> TileHeader,
    ) -> Seq<(EntryModel, Seq<TileModel>)> {
        tensors_from(
            data,
            self.layout,
            entry_of,
            header_of,
            self.entries_left,
            self.entry_pos,
        )
    }
}

/// Reading an entry loses nothing: what was to come is its tensor, with all tiles
/// of it, and what is to come afterwards.
pub proof fn entries_are_read_in_turn(
    m: ReaderModel,
    data: Seq<u8>,
    entry_of: spec_fn(Seq<u8>) -> Option<EntryModel>,
    header_of: spec_fn(Seq<u8>) -> TileHeader,
)
    requires
        m.tensor is None,
    ensures
        !m.entry_due(data.len() as int) ==> m.tensors_to_come(data, entry_of, header_of).len() == 0,
        m.entry_due(data.len() as int) ==> {
            let e = entry_of(data.subrange(m.entry_pos, m.entry_pos + ENTRY_SIZE));
            let after = m.after_entry(e);
            match e {
                Some(e) => m.tensors_to_come(data, entry_of, header_of) == seq![
                    (e, after.tiles_to_come(data, header_of)),
                ] + after.tensors_to_come(data, entry_of, header_of),
                None => m.tensors_to_come(data, entry_of, header_of).len() == 0
                    && after.tensors_to_come(data, entry_of, header_of).len() == 0,
            }
        },
{
}

/// Reading a tile loses nothing: what was to come of its tensor is the tile and
/// what is to come afterwards, or nothing where the file ends inside the tile.
/// The other tensors are not touched.
pub proof fn tiles_are_read_in_turn(
    m: ReaderModel,
    data: Seq<u8>,
    entry_of: spec_fn(Seq<u8>) -> Option<EntryModel>,
    header_of: spec_fn(Seq<u8>) -> TileHeader,
)
    requires
        m.tensor is Some,
    ensures
        !m.header_due(data.len() as int) ==> m.tiles_to_come(data, header_of).len() == 0,
        m.header_due(data.len() as int) ==> {
            let t = m.tensor->0;
            let h = header_of(data.subrange(t.at, t.at + m.layout.header_size));
            let after = m.after_header(data.len() as int, h);
            &&& m.tiles_to_come(data, header_of) == if t.at + m.next_size(h) <= data.len() {
                seq![tile_at(data, m.layout, h, m.next_weights(), t.at)] + after.tiles_to_come(
                    data,
                    header_of,
                )
            } else {
                Seq::empty()
            }
            &&& t.at + m.next_size(h) > data.len() ==> !after.header_due(data.len() as int)
            &&& after.tensors_to_come(data, entry_of, header_of) == m.tensors_to_come(
                data,
                entry_of,
                header_of,
            )
        },
{
}

/// What is to be looked at next.
#[derive(Debug)]
pub enum NszStep {
    /// These are the bytes of an entry.
    Entry(Vec<u8>),
    /// These are the bytes of a tile's header.
    Header(Vec<u8>),
    /// The tensor of this name has no more tiles.
    Tensor(String),
    /// There are no more tensors.
    Done,
}

/// How far a file has been read.
#[derive(Debug)]
pub struct NszReader {
    pub layout: NszLayout,
    pub entries_left: usize,
    pub entry_pos: usize,
    pub tensor: Option<OpenTensor>,
}

impl View for NszReader {
    type V = ReaderModel;

    open spec fn view(&self) -> ReaderModel {
        ReaderModel {
            layout: self.layout,
            entries_left: self.entries_left as int,
            entry_pos: self.entry_pos as int,
            tensor: match self.tensor {
                Some(t) => Some(t@),
                None => None,
            },
        }
    }
}

impl NszReader {
    /// A file of `num_tensors` tensors, whose entries begin at `entry_pos`.
    pub fn new(layout: NszLayout, num_tensors: usize, entry_pos: usize) -> (r: NszReader)
        ensures
            r@ == (ReaderModel {
                layout,
                entries_left: num_tensors as int,
                entry_pos: entry_pos as int,
                tensor: None,
            }),
    {
        NszReader { layout, entries_left: num_tensors, entry_pos, tensor: None }
    }

    /// What is to be looked at next in the file.
    pub fn next(&mut self, data: &[u8]) -> (r: NszStep)
        ensures
            match r {
                NszStep::Entry(b) => {
                    &&& old(self)@.entry_due(data@.len() as int)
                    &&& b@ == data@.subrange(
                        old(self).entry_pos as int,
                        old(self).entry_pos + ENTRY_SIZE,
                    )
                    &&& final(self)@ == old(self)@
                },
                NszStep::Header(b) => {
                    &&& old(self)@.header_due(data@.len() as int)
                    &&& b@ == data@.subrange(
                        old(self)@.tensor->0.at,
                        old(self)@.tensor->0.at + old(self).layout.header_size,
                    )
                    &&& final(self)@ == old(self)@
                },
                NszStep::Tensor(name) => {
                    &&& old(self).tensor is Some
                    &&& !old(self)@.header_due(data@.len() as int)
                    &&& name@ == old(self)@.tensor->0.entry.name
                    &&& final(self)@ == old(self)@.after_tensor()
                },
                NszStep::Done => {
                    &&& old(self).tensor is None
                    &&& !old(self)@.entry_due(data@.len() as int)
                    &&& final(self)@ == old(self)@
                },
            },
    {
        let open = self.tensor.take();
        match open {
            Some(t) => {
                let end: u128 = self.layout.header_size as u128;
                if t.tile < t.entry.num_tiles && t.at <= data.len() as u128 && end
                    <= data.len() as u128 - t.at {
                    let at: usize = t.at as usize;
                    let head = copy_bytes(data, at, at + self.layout.header_size);
                    self.tensor = Some(t);
                    NszStep::Header(head)
                } else {
                    NszStep::Tensor(t.entry.name)
                }
            },
            None => {
                if self.entries_left == 0 {
                    return NszStep::Done;
                }
                match take_entry(data, self.entry_pos) {
                    Some((b, _)) => NszStep::Entry(b),
                    None => NszStep::Done,
                }
            },
        }
    }

    /// The entry that is due says `entry`; nothing where it cannot be read.
    pub fn entry(&mut self, entry: Option<NszEntry>)
        requires
            old(self).tensor is None,
            old(self).entries_left > 0,
            old(self).entry_pos + ENTRY_SIZE <= usize::MAX,
        ensures
            final(self)@ == old(self)@.after_entry(
                match entry {
                    Some(e) => Some(e@),
                    None => None,
                },
            ),
    {
        match entry {
            Some(e) => {
                let at: u128 = e.compressed_offset as u128;
                self.entries_left = self.entries_left - 1;
                self.entry_pos = self.entry_pos + ENTRY_SIZE;
                self.tensor = Some(OpenTensor { entry: e, tile: 0, at });
            },
            None => {
                self.entries_left = 0;
            },
        }
    }

    /// The header that is due says `h`. Returns the tile; nothing where the file
    /// ends inside it, and its tensor with it.
    pub fn header(&mut self, data: &[u8], h: TileHeader) -> (r: Option<NszTile>)
        requires
            old(self)@.header_due(data@.len() as int),
            old(self)@.sensible(),
            old(self).layout.alignment > 0,
        ensures
            final(self)@ == old(self)@.after_header(data@.len() as int, h),
            match r {
                Some(t) => old(self)@.tensor->0.at + old(self)@.next_size(h) <= data@.len() && t@
                    == tile_at(
                    data@,
                    old(self).layout,
                    h,
                    old(self)@.next_weights(),
                    old(self)@.tensor->0.at,
                ),
                None => old(self)@.tensor->0.at + old(self)@.next_size(h) > data@.len(),
            },
    {
        let layout = self.layout;
        let len: usize = data.len();
        let open = self.tensor.take();
        match open {
            Some(mut t) => {
                assert(t.at <= len);
                let at: usize = t.at as usize;
                let n: usize = weights_in_tile(t.entry.num_weights, t.tile, layout.tile_capacity);
                match take_tile(data, at, layout.header_size, h, n, layout.alignment) {
                    Some((tile, next)) => {
                        t.tile = t.tile + 1;
                        t.at = next;
                        self.tensor = Some(t);
                        assert(tile@.runs =~= tile_at(data@, layout, h, n as int, at as int).runs);
                        Some(tile)
                    },
                    None => {
                        t.tile = t.entry.num_tiles;
                        self.tensor = Some(t);
                        None
                    },
                }
            },
            None => None,
        }
    }
}

/// The weights of the first `k` tiles of a tensor with `n` weights.
pub open spec fn weights_before(n: int, k: int, capacity: int) -> int
    decreases k,
{
    if k <= 0 {
        0
    } else {
        weights_before(n, k - 1, capacity) + tile_weights(n, k - 1, capacity)
    }
}

/// The tiles share the weights out: each is full but the last, and the tiles together
/// hold every weight once.
pub proof fn tiles_share_the_weights(n: int, k: int, capacity: int)
    requires
        capacity > 0,
        0 <= k,
        (k - 1) * capacity <= n,
        0 <= n,
    ensures
        weights_before(n, k, capacity) == if k * capacity <= n {
            k * capacity
        } else {
            n
        },
    decreases k,
{
    if k > 0 {
        assert((k - 1) * capacity == k * capacity - capacity) by (nonlinear_arith);
        assert((k - 2) * capacity == k * capacity - 2 * capacity) by (nonlinear_arith);
        tiles_share_the_weights(n, k - 1, capacity);
    } else {
        assert(k * capacity == 0) by (nonlinear_arith)
            requires
                k == 0,
        ;
    }
}

/// The tile `j` of a tensor holds the weights that are its share, and never more tiles are
/// read than the tensor has.
pub proof fn tiles_hold_their_share(
    data: Seq<u8>,
    layout: NszLayout,
    header_of: spec_fn(Seq<u8>) -> TileHeader,
    e: EntryModel,
    k: int,
    at: int,
    j: int,
)
    requires
        0 <= k <= e.num_tiles,
        0 <= j < tiles_from(data, layout, header_of, e, k, at).len(),
    ensures
        k + tiles_from(data, layout, header_of, e, k, at).len() <= e.num_tiles,
        tiles_from(data, layout, header_of, e, k, at)[j].actual_size == weights_before(
            e.num_weights,
            k + j + 1,
            layout.tile_capacity as int,
        ) - weights_before(e.num_weights, k + j, layout.tile_capacity as int),
    decreases e.num_tiles - k,
{
    let h = header_of(data.subrange(at, at + layout.header_size));
    let n = tile_weights(e.num_weights, k, layout.tile_capacity as int);
    let size = tile_size(layout.header_size as int, h, n);
    let next = at + padded(size, layout.alignment as int);
    let rest = tiles_from(data, layout, header_of, e, k + 1, next);
    if rest.len() > 0 {
        tiles_hold_their_share(data, layout, header_of, e, k + 1, next, if j > 0 {
            j - 1
        } else {
            0
        });
    }
}

} // verus!
