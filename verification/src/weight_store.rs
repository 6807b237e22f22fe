//! The weights of a model: where its tensors stand in the file, how their bytes
//! become single-precision numbers, and the bank that holds every tensor the
//! model needs.

use vstd::arithmetic::power2::{
    lemma2_to64, lemma_pow2_adds, lemma_pow2_pos, lemma_pow2_strictly_increases,
    lemma_pow2_unfold, pow2,
};
use vstd::prelude::*;

use crate::errors::NodeStorError;
use crate::float_bits::{exponent_bits, fraction_bits, is_nan, single_value};
use crate::le_bytes::{copy_bytes, le16, read_u16, read_words, words_at};
use crate::named_map::NamedMap;

verus! {

// ─── Tensors in the file ─────────────────────────────────────────────────────

/// How the elements of a tensor are stored.
#[derive(Clone, Copy, Debug, PartialEq, Eq, Structural)]
pub enum TensorDtype {
    F32,
    F16,
    BF16,
    Q4_0,
    Q4_1,
    Q5_0,
    Q5_1,
    Q8_0,
    Q8_1,
    Q2K,
    Q3K,
    Q4K,
    Q5K,
    Q6K,
    Q8K,
    I8,
    I16,
    I32,
}

/// The block formats that the dequantizer knows.
#[derive(Clone, Copy, Debug, PartialEq, Eq, Structural)]
pub enum QuantFormat {
    F32,
    F16,
    Q5_0,
    Q8_0,
    Q8_1,
    Q4KMedium,
    Q5KMedium,
    Q6K,
}

/// A tensor: its name, its shape, and where its bytes stand in the file.
pub struct TensorInfo {
    pub name: String,
    pub shape: Vec<usize>,
    pub dtype: TensorDtype,
    pub data_offset: u64,
    pub data_size: u64,
}

/// The tensors of a model file by name.
pub struct WeightStore {
    pub tensor_index: NamedMap<TensorInfo>,
}

impl WeightStore {
    pub open spec fn wf(&self) -> bool {
        self.tensor_index.wf()
    }

    /// Tensor `i` lies inside a file of `n` bytes.
    pub open spec fn lies_inside(&self, n: nat, i: int) -> bool {
        self.tensor_index.entries@[i].1.data_offset + self.tensor_index.entries@[i].1.data_size
            <= n
    }

    /// Tensor `i` is the first that does not lie inside a file of `n` bytes.
    pub open spec fn first_outside(&self, n: nat, i: int) -> bool {
        &&& 0 <= i < self.tensor_index.entries@.len()
        &&& !self.lies_inside(n, i)
        &&& forall|j: int| 0 <= j < i ==> self.lies_inside(n, j)
    }

    /// The index of `tensors`. Where a name occurs twice the later tensor counts.
    pub fn open(tensors: Vec<TensorInfo>) -> (s: WeightStore)
        ensures
            s.wf(),
            s.tensor_index@ == indexed(tensors@),
    {
        let mut index: NamedMap<TensorInfo> = NamedMap::new();
        let ghost all = tensors@;
        for t in it: tensors
            invariant
                it.seq() == all,
                index.wf(),
                index@ == indexed(all.take(it.index())),
        {
            proof {
                assert(all.take(it.index() + 1).drop_last() =~= all.take(it.index()));
                assert(all.take(it.index() + 1).last() == t);
            }
            index.insert(t.name.clone(), t);
        }
        assert(all.take(all.len() as int) =~= all);
        WeightStore { tensor_index: index }
    }

    /// The tensor called `name`.
    pub fn tensor_info(&self, name: &str) -> (r: Option<&TensorInfo>)
        requires
            self.wf(),
        ensures
            match r {
                Some(t) => self.tensor_index@.contains_key(name@) && *t
                    == self.tensor_index@[name@],
                None => !self.tensor_index@.contains_key(name@),
            },
    {
        self.tensor_index.get(name)
    }

    /// The names of the tensors.
    pub fn list_tensors(&self) -> (names: Vec<String>)
        ensures
            crate::text::views(names@) == self.tensor_index.names(),
    {
        let mut names: Vec<String> = Vec::new();
        let mut i: usize = 0;
        while i < self.tensor_index.entries.len()
            invariant
                i <= self.tensor_index.entries@.len(),
                crate::text::views(names@) == self.tensor_index.names().take(i as int),
            decreases self.tensor_index.entries@.len() - i,
        {
            let ghost before = names@;
            names.push(self.tensor_index.entries[i].0.clone());
            i = i + 1;
            proof {
                let want = self.tensor_index.names().take(i as int);
                assert(want =~= self.tensor_index.names().take(i - 1).push(
                    self.tensor_index.entries@[i - 1].0@,
                ));
                assert(crate::text::views(names@) =~= crate::text::views(before).push(
                    self.tensor_index.entries@[i - 1].0@,
                ));
            }
        }
        assert(self.tensor_index.names().take(i as int) =~= self.tensor_index.names());
        names
    }

    /// The bytes of the tensor called `name` in the file `data`; nothing where
    /// the tensor is unknown or does not lie inside the file.
    pub fn tensor_bytes<'a>(&self, data: &'a [u8], name: &str) -> (r: Option<&'a [u8]>)
        requires
            self.wf(),
        ensures
            match r {
                Some(b) => self.tensor_index@.contains_key(name@) && ({
                    let t = self.tensor_index@[name@];
                    t.data_offset + t.data_size <= data@.len() && b@ == data@.subrange(
                        t.data_offset as int,
                        t.data_offset + t.data_size,
                    )
                }),
                None => !self.tensor_index@.contains_key(name@) || ({
                    let t = self.tensor_index@[name@];
                    t.data_offset + t.data_size > data@.len()
                }),
            },
    {
        let t = match self.tensor_info(name) {
            Some(t) => t,
            None => {
                return None;
            },
        };
        let n: usize = data.len();
        if t.data_offset > n as u64 || t.data_size > n as u64 - t.data_offset {
            return None;
        }
        let start: usize = t.data_offset as usize;
        let end: usize = start + t.data_size as usize;
        Some(&data[start..end])
    }

    /// The bytes of every tensor, by name, ready to be sent to the device; an
    /// error that names the first tensor that does not lie inside the file.
    pub fn upload_order(&self, data: &[u8]) -> (r: Result<Vec<(String, Vec<u8>)>, NodeStorError>)
        requires
            self.wf(),
        ensures
            match r {
                Ok(v) => v@.len() == self.tensor_index.entries@.len() && forall|i: int|
                    0 <= i < v@.len() ==> {
                        let t = self.tensor_index.entries@[i].1;
                        &&& (#[trigger] v@[i]).0@ == self.tensor_index.entries@[i].0@
                        &&& t.data_offset + t.data_size <= data@.len()
                        &&& v@[i].1@ == data@.subrange(
                            t.data_offset as int,
                            t.data_offset + t.data_size,
                        )
                    },
                Err(e) => e is IoError && exists|i: int| #[trigger]
                    self.first_outside(data@.len(), i) && e.text() == "Tensor "@
                        + self.tensor_index.entries@[i].0@ + " fora dos limites do arquivo"@,
            },
    {
        let mut v: Vec<(String, Vec<u8>)> = Vec::new();
        let mut i: usize = 0;
        while i < self.tensor_index.entries.len()
            invariant
                self.wf(),
                i <= self.tensor_index.entries@.len(),
                v@.len() == i,
                forall|k: int|
                    0 <= k < i ==> {
                        let t = self.tensor_index.entries@[k].1;
                        &&& (#[trigger] v@[k]).0@ == self.tensor_index.entries@[k].0@
                        &&& t.data_offset + t.data_size <= data@.len()
                        &&& v@[k].1@ == data@.subrange(
                            t.data_offset as int,
                            t.data_offset + t.data_size,
                        )
                    },
            decreases self.tensor_index.entries@.len() - i,
        {
            let name = self.tensor_index.entries[i].0.clone();
            proof {
                self.tensor_index.entry_in_view(i as int);
            }
            match self.tensor_bytes(data, name.as_str()) {
                Some(b) => {
                    v.push((name, copy_bytes(b, 0, b.len())));
                    proof {
                        assert(b@.subrange(0, b@.len() as int) =~= b@);
                    }
                },
                None => {
                    let mut m = "Tensor ".to_string();
                    m.append(name.as_str());
                    m.append(" fora dos limites do arquivo");
                    let e = NodeStorError::IoError(m);
                    assert(self.first_outside(data@.len(), i as int)) by {
                        assert forall|j: int| 0 <= j < i implies self.lies_inside(
                            data@.len(),
                            j,
                        ) by {
                            assert(v@[j].0@ == self.tensor_index.entries@[j].0@);
                        }
                    }
                    return Err(e);
                },
            }
            i = i + 1;
        }
        Ok(v)
    }
}

/// The tensors by name; a later tensor replaces an earlier one of its name.
pub open spec fn indexed(tensors: Seq<TensorInfo>) -> Map<Seq<char>, TensorInfo>
    decreases tensors.len(),
{
    if tensors.len() == 0 {
        Map::empty()
    } else {
        indexed(tensors.drop_last()).insert(tensors.last().name@, tensors.last())
    }
}

// ─── Elements as single-precision numbers ────────────────────────────────────

/// How far a fraction of ten bits is shifted to bring its leading bit to the
/// eleventh place, and the factor of that shift.
pub open spec fn normalizing_shift(fraction: int) -> (int, int) {
    if fraction >= 512 {
        (1, 2)
    } else if fraction >= 256 {
        (2, 4)
    } else if fraction >= 128 {
        (3, 8)
    } else if fraction >= 64 {
        (4, 16)
    } else if fraction >= 32 {
        (5, 32)
    } else if fraction >= 16 {
        (6, 64)
    } else if fraction >= 8 {
        (7, 128)
    } else if fraction >= 4 {
        (8, 256)
    } else if fraction >= 2 {
        (9, 512)
    } else {
        (10, 1024)
    }
}

/// The single-precision pattern of the same number as the half-precision
/// pattern `h`. Half precision has five exponent bits with bias 15 and ten
/// fraction bits; single precision has eight with bias 127 and twenty-three.
pub open spec fn widen_f16(h: u16) -> u32 {
    let sign = if h >= 0x8000 {
        0x8000_0000int
    } else {
        0int
    };
    let exponent = h as int % 0x8000 / 1024;
    let fraction = h as int % 1024;
    (if exponent == 31 {
        sign + 0x7f80_0000 + fraction * 8192
    } else if exponent > 0 {
        sign + (exponent + 112) * 8388608 + fraction * 8192
    } else if fraction == 0 {
        sign
    } else {
        let (shift, factor) = normalizing_shift(fraction);
        sign + (113 - shift) * 8388608 + (fraction * factor - 1024) * 8192
    }) as u32
}

fn widen(h: u16) -> (r: u32)
    ensures
        r == widen_f16(h),
{
    let sign: u32 = if h >= 0x8000 {
        0x8000_0000
    } else {
        0
    };
    let exponent: u32 = (h as u32) % 0x8000 / 1024;
    let fraction: u32 = (h as u32) % 1024;
    if exponent == 31 {
        sign + 0x7f80_0000 + fraction * 8192
    } else if exponent > 0 {
        sign + (exponent + 112) * 8388608 + fraction * 8192
    } else if fraction == 0 {
        sign
    } else {
        let (shift, lifted): (u32, u32) = if fraction >= 512 {
            (1, fraction * 2)
        } else if fraction >= 256 {
            (2, fraction * 4)
        } else if fraction >= 128 {
            (3, fraction * 8)
        } else if fraction >= 64 {
            (4, fraction * 16)
        } else if fraction >= 32 {
            (5, fraction * 32)
        } else if fraction >= 16 {
            (6, fraction * 64)
        } else if fraction >= 8 {
            (7, fraction * 128)
        } else if fraction >= 4 {
            (8, fraction * 256)
        } else if fraction >= 2 {
            (9, fraction * 512)
        } else {
            (10, fraction * 1024)
        };
        sign + (113 - shift) * 8388608 + (lifted - 1024) * 8192
    }
}

/// The absolute value of the half-precision number with these exponent and fraction
/// bits, times two to the power 24: with exponent bits `e > 0` the number is one and the
/// fraction, times two to the power `e - 15`; with none it is the fraction alone, times
/// two to the power -14.
pub open spec fn half_size(e: int, f: int) -> int {
    if e == 0 {
        f
    } else {
        (1024 + f) * pow2((e - 1) as nat)
    }
}

/// The number that a half-precision pattern stands for, times two to the power 24.
pub open spec fn half_value(h: int) -> int {
    let size = half_size(h / 1024 % 32, h % 1024);
    if h / 0x8000 == 1 {
        -size
    } else {
        size
    }
}

/// Widening loses nothing: the single-precision pattern stands for the very number that
/// the half-precision pattern stands for. Infinities stay infinities, what is no number
/// stays none, and the sign stays.
pub proof fn widening_keeps_the_value(h: u16)
    ensures
        h as int / 1024 % 32 != 31 ==> !is_nan(widen_f16(h)) && exponent_bits(widen_f16(h)) < 255
            && single_value(widen_f16(h)) == half_value(h as int) * pow2(125),
        h as int / 1024 % 32 == 31 ==> exponent_bits(widen_f16(h)) == 255 && fraction_bits(
            widen_f16(h),
        ) == (h as int % 1024) * 8192,
        widen_f16(h) as int / 0x8000_0000 == h as int / 0x8000,
{
    let e = h as int / 1024 % 32;
    let f = h as int % 1024;
    assert(h as int % 0x8000 / 1024 == e) by (nonlinear_arith)
        requires
            e == h as int / 1024 % 32,
            0 <= h as int <= 0xffff,
    ;
    let sign = if h >= 0x8000 {
        0x8000_0000int
    } else {
        0int
    };
    let w = widen_f16(h);
    if e == 31 {
        assert(w as int == sign + 0x7f80_0000 + f * 8192);
    } else if e > 0 {
        assert(w as int == sign + (e + 112) * 8388608 + f * 8192);
        assert(exponent_bits(w) == e + 112);
        assert(fraction_bits(w) == f * 8192);
        lemma_pow2_adds((e - 1) as nat, 112);
        lemma_pow2_adds(13, 112);
        lemma2_to64();
        let p = pow2((e - 1) as nat) as int;
        let q = pow2(112) as int;
        assert((0x80_0000 + f * 8192) * (p * q) == (1024 + f) * p * (8192 * q))
            by (nonlinear_arith);
        assert(-((1024 + f) * p) * (8192 * q) == -((1024 + f) * p * (8192 * q)))
            by (nonlinear_arith);
    } else if f == 0 {
        assert(w as int == sign);
        assert(exponent_bits(w) == 0 && fraction_bits(w) == 0);
        assert(0 * pow2(125) == 0) by (nonlinear_arith);
    } else {
        let (shift, factor) = normalizing_shift(f);
        lemma2_to64();
        assert(factor == pow2(shift as nat) && 1 <= shift <= 10);
        assert(1024 <= f * factor < 2048) by {
            if f >= 512 {
                assert(f * factor == f * 2);
            } else if f >= 256 {
                assert(f * factor == f * 4);
            } else if f >= 128 {
                assert(f * factor == f * 8);
            } else if f >= 64 {
                assert(f * factor == f * 16);
            } else if f >= 32 {
                assert(f * factor == f * 32);
            } else if f >= 16 {
                assert(f * factor == f * 64);
            } else if f >= 8 {
                assert(f * factor == f * 128);
            } else if f >= 4 {
                assert(f * factor == f * 256);
            } else if f >= 2 {
                assert(f * factor == f * 512);
            } else {
                assert(f * factor == f * 1024);
            }
        }
        assert(w as int == sign + (113 - shift) * 8388608 + (f * factor - 1024) * 8192);
        assert(exponent_bits(w) == 113 - shift);
        assert(fraction_bits(w) == (f * factor - 1024) * 8192);
        lemma_pow2_adds(shift as nat, (112 - shift) as nat);
        lemma_pow2_adds(13, 112);
        let p = pow2((112 - shift) as nat) as int;
        assert((0x80_0000 + (f * factor - 1024) * 8192) * p == f * (8192 * (factor * p)))
            by (nonlinear_arith);
        assert(-f * (8192 * (factor * p)) == -(f * (8192 * (factor * p)))) by (nonlinear_arith);
    }
}

/// Different half-precision patterns stay different.
pub proof fn widening_is_injective(a: u16, b: u16)
    requires
        widen_f16(a) == widen_f16(b),
    ensures
        a == b,
{
    widening_keeps_the_value(a);
    widening_keeps_the_value(b);
    let (ea, fa) = (a as int / 1024 % 32, a as int % 1024);
    let (eb, fb) = (b as int / 1024 % 32, b as int % 1024);
    lemma_pow2_pos(125);
    if ea != 31 && eb != 31 {
        let (x, y, p) = (half_value(a as int), half_value(b as int), pow2(125) as int);
        assert(x == y) by (nonlinear_arith)
            requires
                x * p == y * p,
                p > 0,
        ;
        assert(half_size(ea, fa) == half_size(eb, fb));
        if ea * 1024 + fa < eb * 1024 + fb {
            half_sizes_differ(ea, fa, eb, fb);
        } else if eb * 1024 + fb < ea * 1024 + fa {
            half_sizes_differ(eb, fb, ea, fa);
        }
    }
    assert(ea == eb && fa == fb);
    assert(a as int == (a as int / 0x8000) * 0x8000 + ea * 1024 + fa);
    assert(b as int == (b as int / 0x8000) * 0x8000 + eb * 1024 + fb);
}

proof fn half_sizes_differ(e: int, f: int, x: int, g: int)
    requires
        0 <= e < 31,
        0 <= x < 31,
        0 <= f < 1024,
        0 <= g < 1024,
        e * 1024 + f < x * 1024 + g,
    ensures
        half_size(e, f) < half_size(x, g),
{
    lemma2_to64();
    if e == x {
        if e > 0 {
            lemma_pow2_pos((e - 1) as nat);
            assert((1024 + f) * pow2((e - 1) as nat) < (1024 + g) * pow2((e - 1) as nat))
                by (nonlinear_arith)
                requires
                    f < g,
                    pow2((e - 1) as nat) > 0,
            ;
        }
    } else {
        lemma_pow2_pos((x - 1) as nat);
        assert((1024 + g) * pow2((x - 1) as nat) >= 1024 * pow2((x - 1) as nat))
            by (nonlinear_arith)
            requires
                g >= 0,
                pow2((x - 1) as nat) > 0,
        ;
        if e > 0 {
            lemma_pow2_pos((e - 1) as nat);
            lemma_pow2_unfold(e as nat);
            assert((1024 + f) * pow2((e - 1) as nat) < 1024 * (2 * pow2((e - 1) as nat)))
                by (nonlinear_arith)
                requires
                    f < 1024,
                    pow2((e - 1) as nat) > 0,
            ;
            if e < x - 1 {
                lemma_pow2_strictly_increases(e as nat, (x - 1) as nat);
            }
            assert(1024 * pow2(e as nat) <= 1024 * pow2((x - 1) as nat)) by (nonlinear_arith)
                requires
                    pow2(e as nat) <= pow2((x - 1) as nat),
            ;
        } else {
            assert(1024 * pow2((x - 1) as nat) >= 1024) by (nonlinear_arith)
                requires
                    pow2((x - 1) as nat) > 0,
            ;
        }
    }
}

/// The weights of a tensor are read without loss, each from its own two bytes, the less
/// significant first: a half-precision number keeps its value, and a brain float is a
/// single-precision number whose lower half is clear.
pub proof fn weights_are_read_without_loss(bytes: Seq<u8>, i: int)
    requires
        0 <= i < bytes.len() / 2,
    ensures
        f16_as_f32(bytes).len() == bytes.len() / 2,
        bf16_as_f32(bytes).len() == bytes.len() / 2,
        ({
            let h = bytes[2 * i] + 256 * bytes[2 * i + 1];
            let w = f16_as_f32(bytes)[i];
            &&& h / 1024 % 32 != 31 ==> single_value(w) == half_value(h as int) * pow2(125)
            &&& h / 1024 % 32 == 31 ==> exponent_bits(w) == 255 && fraction_bits(w) == (h % 1024)
                * 8192
            &&& w as int / 0x8000_0000 == h / 0x8000
            &&& bf16_as_f32(bytes)[i] == 65536 * h
        }),
{
    widening_keeps_the_value(le16(bytes, 2 * i));
}

/// The words of half-precision patterns, each as a single-precision pattern.
pub open spec fn f16_as_f32(bytes: Seq<u8>) -> Seq<u32> {
    Seq::new(bytes.len() / 2, |i: int| widen_f16(le16(bytes, 2 * i)))
}

/// The words of brain-float patterns, each as a single-precision pattern: a
/// brain float is the upper half of one.
pub open spec fn bf16_as_f32(bytes: Seq<u8>) -> Seq<u32> {
    Seq::new(bytes.len() / 2, |i: int| (le16(bytes, 2 * i) * 65536) as u32)
}

fn convert_f16(bytes: &[u8]) -> (r: Vec<u32>)
    ensures
        r@ == f16_as_f32(bytes@),
{
    let n: usize = bytes.len() / 2;
    assert(2 * n <= bytes.len());
    let mut r: Vec<u32> = Vec::new();
    let mut i: usize = 0;
    while i < n
        invariant
            n == bytes@.len() / 2,
            2 * n <= usize::MAX,
            i <= n,
            r@ == f16_as_f32(bytes@).take(i as int),
        decreases n - i,
    {
        r.push(widen(read_u16(bytes, 2 * i)));
        i = i + 1;
        assert(r@ =~= f16_as_f32(bytes@).take(i as int));
    }
    assert(r@ =~= f16_as_f32(bytes@));
    r
}

fn convert_bf16(bytes: &[u8]) -> (r: Vec<u32>)
    ensures
        r@ == bf16_as_f32(bytes@),
{
    let n: usize = bytes.len() / 2;
    assert(2 * n <= bytes.len());
    let mut r: Vec<u32> = Vec::new();
    let mut i: usize = 0;
    while i < n
        invariant
            n == bytes@.len() / 2,
            2 * n <= usize::MAX,
            i <= n,
            r@ == bf16_as_f32(bytes@).take(i as int),
        decreases n - i,
    {
        r.push((read_u16(bytes, 2 * i) as u32) * 65536);
        i = i + 1;
        assert(r@ =~= bf16_as_f32(bytes@).take(i as int));
    }
    assert(r@ =~= bf16_as_f32(bytes@));
    r
}

/// How a tensor becomes single-precision numbers.
pub enum TensorValues {
    /// The numbers themselves, without loss, as bit patterns.
    Exact(Vec<u32>),
    /// The dequantizer of this format has to unpack the bytes.
    Dequantize(QuantFormat),
    /// There is no direct conversion; the bytes are used as they are.
    Unsupported,
}

/// The format in which the dequantizer takes elements of type `dtype`.
pub open spec fn quant_format(dtype: TensorDtype) -> Option<QuantFormat> {
    match dtype {
        TensorDtype::F32 => Some(QuantFormat::F32),
        TensorDtype::F16 => Some(QuantFormat::F16),
        TensorDtype::Q5_0 => Some(QuantFormat::Q5_0),
        TensorDtype::Q8_0 => Some(QuantFormat::Q8_0),
        TensorDtype::Q8_1 => Some(QuantFormat::Q8_1),
        TensorDtype::Q4K => Some(QuantFormat::Q4KMedium),
        TensorDtype::Q5K => Some(QuantFormat::Q5KMedium),
        TensorDtype::Q6K => Some(QuantFormat::Q6K),
        _ => None,
    }
}

/// How the tensor of `num_elements` elements of type `dtype` in `bytes` becomes
/// single-precision numbers. The three floating-point types are converted
/// without loss: brain floats always, the other two where the bytes are those
/// of `num_elements` elements.
pub fn tensor_to_f32(bytes: &[u8], dtype: TensorDtype, num_elements: usize) -> (r: TensorValues)
    ensures
        match r {
            TensorValues::Exact(v) => {
                ||| dtype == TensorDtype::BF16 && v@ == bf16_as_f32(bytes@)
                ||| dtype == TensorDtype::F32 && bytes@.len() == 4 * num_elements && v@
                    == words_at(bytes@, 0, num_elements as nat)
                ||| dtype == TensorDtype::F16 && bytes@.len() == 2 * num_elements && v@
                    == f16_as_f32(bytes@)
            },
            TensorValues::Dequantize(f) => dtype != TensorDtype::BF16 && quant_format(dtype)
                == Some(f) && !(dtype == TensorDtype::F32 && bytes@.len() == 4 * num_elements)
                && !(dtype == TensorDtype::F16 && bytes@.len() == 2 * num_elements),
            TensorValues::Unsupported => dtype != TensorDtype::BF16 && quant_format(dtype) is None,
        },
{
    if dtype == TensorDtype::BF16 {
        return TensorValues::Exact(convert_bf16(bytes));
    }
    let n: usize = bytes.len();
    if dtype == TensorDtype::F32 && n % 4 == 0 && n / 4 == num_elements {
        return TensorValues::Exact(read_words(bytes, 0, num_elements));
    }
    if dtype == TensorDtype::F16 && n % 2 == 0 && n / 2 == num_elements {
        return TensorValues::Exact(convert_f16(bytes));
    }
    match dtype {
        TensorDtype::F32 => TensorValues::Dequantize(QuantFormat::F32),
        TensorDtype::F16 => TensorValues::Dequantize(QuantFormat::F16),
        TensorDtype::Q5_0 => TensorValues::Dequantize(QuantFormat::Q5_0),
        TensorDtype::Q8_0 => TensorValues::Dequantize(QuantFormat::Q8_0),
        TensorDtype::Q8_1 => TensorValues::Dequantize(QuantFormat::Q8_1),
        TensorDtype::Q4K => TensorValues::Dequantize(QuantFormat::Q4KMedium),
        TensorDtype::Q5K => TensorValues::Dequantize(QuantFormat::Q5KMedium),
        TensorDtype::Q6K => TensorValues::Dequantize(QuantFormat::Q6K),
        _ => TensorValues::Unsupported,
    }
}

// ─── The bank ────────────────────────────────────────────────────────────────

/// The bytes of every tensor by name.
pub struct WeightBank {
    pub tensors: NamedMap<Vec<u8>>,
}

impl View for WeightBank {
    type V = Map<Seq<char>, Seq<u8>>;

    open spec fn view(&self) -> Map<Seq<char>, Seq<u8>> {
        self.tensors@.map_values(|b: Vec<u8>| b@)
    }
}

impl WeightBank {
    pub open spec fn wf(&self) -> bool {
        self.tensors.wf()
    }

    /// An empty bank.
    pub fn new() -> (b: WeightBank)
        ensures
            b.wf(),
            b@ == Map::<Seq<char>, Seq<u8>>::empty(),
    {
        let b = WeightBank { tensors: NamedMap::new() };
        assert(b@ =~= Map::<Seq<char>, Seq<u8>>::empty());
        b
    }

    /// Sets the bytes of the tensor `name`.
    pub fn insert(&mut self, name: String, bytes: Vec<u8>)
        requires
            old(self).wf(),
        ensures
            final(self).wf(),
            final(self)@ == old(self)@.insert(name@, bytes@),
    {
        let ghost before = *self;
        self.tensors.insert(name, bytes);
        assert(self@ =~= before@.insert(name@, bytes@));
    }

    /// The bytes of the tensor `name`.
    pub fn get(&self, name: &str) -> (r: Option<&Vec<u8>>)
        requires
            self.wf(),
        ensures
            match r {
                Some(b) => self@.contains_key(name@) && b@ == self@[name@],
                None => !self@.contains_key(name@),
            },
    {
        self.tensors.get(name)
    }

    /// How many single-precision numbers the tensor `name` holds.
    pub fn f32_len(&self, name: &str) -> (r: Option<usize>)
        requires
            self.wf(),
        ensures
            match r {
                Some(n) => self@.contains_key(name@) && n == self@[name@].len() / 4,
                None => !self@.contains_key(name@),
            },
    {
        match self.get(name) {
            Some(b) => Some(b.len() / 4),
            None => None,
        }
    }
}

/// The number of elements of a tensor.
pub open spec fn elements(shape: Seq<usize>) -> nat
    decreases shape.len(),
{
    if shape.len() == 0 {
        1
    } else {
        elements(shape.drop_last()) * shape.last() as nat
    }
}

/// The number of elements, and that of each leading part of the shape, can be
/// counted, and so can the bytes of as many single-precision numbers.
pub open spec fn countable(shape: Seq<usize>) -> bool {
    &&& forall|i: int| 0 <= i <= shape.len() ==> #[trigger] elements(shape.take(i)) <= usize::MAX
    &&& elements(shape) * 4 <= usize::MAX
}

fn count_elements(shape: &Vec<usize>) -> (n: usize)
    requires
        countable(shape@),
    ensures
        n == elements(shape@),
{
    let mut n: usize = 1;
    let mut i: usize = 0;
    while i < shape.len()
        invariant
            countable(shape@),
            i <= shape@.len(),
            n == elements(shape@.take(i as int)),
        decreases shape@.len() - i,
    {
        proof {
            let next = shape@.take(i + 1);
            assert(next.drop_last() =~= shape@.take(i as int));
            assert(elements(next) <= usize::MAX);
        }
        n = n * shape[i];
        i = i + 1;
    }
    assert(shape@.take(i as int) =~= shape@);
    n
}

/// The bytes of a tensor that the file does not hold: zeros, and never none.
pub open spec fn blank_tensor(shape: Seq<usize>) -> Seq<u8> {
    Seq::new(
        if elements(shape) == 0 {
            4
        } else {
            elements(shape) * 4
        },
        |i: int| 0u8,
    )
}

/// The bank after the tensors of `loaded` are put into it one after the other.
pub open spec fn filled(loaded: Seq<(Seq<char>, Seq<u8>)>) -> Map<Seq<char>, Seq<u8>>
    decreases loaded.len(),
{
    if loaded.len() == 0 {
        Map::empty()
    } else {
        filled(loaded.drop_last()).insert(loaded.last().0, loaded.last().1)
    }
}

/// The bank after a blank is put in for every tensor that it lacks.
pub open spec fn completed(
    bank: Map<Seq<char>, Seq<u8>>,
    tensors: Seq<TensorInfo>,
) -> Map<Seq<char>, Seq<u8>>
    decreases tensors.len(),
{
    if tensors.len() == 0 {
        bank
    } else {
        let before = completed(bank, tensors.drop_last());
        let t = tensors.last();
        if before.contains_key(t.name@) {
            before
        } else {
            before.insert(t.name@, blank_tensor(t.shape@))
        }
    }
}

/// The embedding as an output projection: its bytes, as far as they make whole
/// numbers.
pub open spec fn tied_output(bank: Map<Seq<char>, Seq<u8>>) -> Option<Seq<u8>> {
    let n = bank["token_embd.weight"@].len() as int / 4;
    if bank.contains_key("output.weight"@) || !bank.contains_key("token_embd.weight"@) || n == 0 {
        None
    } else {
        Some(bank["token_embd.weight"@].take(4 * n))
    }
}

/// The bank with the output projection tied to the embedding, where the model
/// brings no output projection of its own.
pub open spec fn tied(
    bank: Map<Seq<char>, Seq<u8>>,
    output: Option<Seq<u8>>,
) -> Map<Seq<char>, Seq<u8>> {
    match output {
        Some(bytes) => bank.insert("output.weight"@, bytes),
        None => bank,
    }
}

/// The names and bytes of loaded tensors.
pub open spec fn loaded_views(loaded: Seq<(String, Vec<u8>)>) -> Seq<(Seq<char>, Seq<u8>)> {
    loaded.map_values(|e: (String, Vec<u8>)| (e.0@, e.1@))
}

/// Builds the staging bank and the bank of what goes to the device. The staging
/// bank holds what was loaded, a blank for every tensor of the model that was
/// not, and the tied output projection; the device gets what was loaded and the
/// tied output projection.
pub fn build_weight_bank(loaded: Vec<(String, Vec<u8>)>, tensors: &Vec<TensorInfo>) -> (r: (
    WeightBank,
    WeightBank,
))
    requires
        forall|i: int|
            0 <= i < tensors@.len() && !filled(loaded_views(loaded@)).contains_key(
                tensors@[i].name@,
            ) ==> countable((#[trigger] tensors@[i]).shape@),
    ensures
        r.0.wf(),
        r.1.wf(),
        ({
            let whole = completed(filled(loaded_views(loaded@)), tensors@);
            &&& r.0@ == tied(whole, tied_output(whole))
            &&& r.1@ == tied(filled(loaded_views(loaded@)), tied_output(whole))
        }),
{
    let mut staging = WeightBank::new();
    let mut raw = WeightBank::new();
    let ghost all = loaded@;
    let ghost base = filled(loaded_views(loaded@));
    for e in it: loaded
        invariant
            it.seq() == all,
            staging.wf(),
            raw.wf(),
            staging@ == filled(loaded_views(all.take(it.index()))),
            raw@ == staging@,
    {
        proof {
            let next = loaded_views(all.take(it.index() + 1));
            assert(next.drop_last() =~= loaded_views(all.take(it.index())));
            assert(next.last() == (e.0@, e.1@));
        }
        let (name, bytes) = e;
        let copy = copy_bytes(bytes.as_slice(), 0, bytes.len());
        assert(copy@ =~= bytes@);
        staging.insert(name.clone(), copy);
        raw.insert(name, bytes);
    }
    assert(all.take(all.len() as int) =~= all);
    let mut i: usize = 0;
    assert(tensors@.take(0) =~= Seq::<TensorInfo>::empty());
    while i < tensors.len()
        invariant
            i <= tensors@.len(),
            staging.wf(),
            staging@ == completed(base, tensors@.take(i as int)),
            forall|n: Seq<char>| #[trigger] base.contains_key(n) ==> staging@.contains_key(n),
            forall|k: int|
                0 <= k < tensors@.len() && !base.contains_key(tensors@[k].name@) ==> countable(
                    (#[trigger] tensors@[k]).shape@,
                ),
        decreases tensors@.len() - i,
    {
        proof {
            let next = tensors@.take(i + 1);
            assert(next.drop_last() =~= tensors@.take(i as int));
            assert(next.last() == tensors@[i as int]);
        }
        let t = &tensors[i];
        if staging.get(t.name.as_str()).is_none() {
            let n: usize = count_elements(&t.shape);
            let size: usize = if n == 0 {
                4
            } else {
                n * 4
            };
            let blank: Vec<u8> = vec![0u8; size];
            assert(blank@ =~= blank_tensor(t.shape@));
            staging.insert(t.name.clone(), blank);
        }
        i = i + 1;
    }
    assert(tensors@.take(i as int) =~= tensors@);
    if staging.get("output.weight").is_none() {
        let output: Option<Vec<u8>> = match staging.get("token_embd.weight") {
            Some(b) => {
                let n: usize = b.len() / 4;
                if n == 0 {
                    None
                } else {
                    Some(copy_bytes(b.as_slice(), 0, 4 * n))
                }
            },
            None => None,
        };
        match output {
            Some(bytes) => {
                let copy = copy_bytes(bytes.as_slice(), 0, bytes.len());
                assert(copy@ =~= bytes@);
                staging.insert("output.weight".to_string(), copy);
                raw.insert("output.weight".to_string(), bytes);
            },
            None => {},
        }
    }
    (staging, raw)
}

/// Every tensor of the model is in the staging bank, and whatever was loaded is
/// there as it was loaded.
pub proof fn staging_bank_is_complete(
    base: Map<Seq<char>, Seq<u8>>,
    tensors: Seq<TensorInfo>,
)
    ensures
        ({
            let whole = completed(base, tensors);
            let bank = tied(whole, tied_output(whole));
            &&& forall|i: int|
                0 <= i < tensors.len() ==> bank.contains_key((#[trigger] tensors[i]).name@)
            &&& forall|n: Seq<char>| #[trigger]
                base.contains_key(n) ==> bank.contains_key(n) && bank[n] == base[n]
        }),
{
    completed_keeps(base, tensors);
}

proof fn completed_keeps(base: Map<Seq<char>, Seq<u8>>, tensors: Seq<TensorInfo>)
    ensures
        forall|n: Seq<char>| #[trigger]
            base.contains_key(n) ==> completed(base, tensors).contains_key(n) && completed(
                base,
                tensors,
            )[n] == base[n],
        forall|i: int|
            0 <= i < tensors.len() ==> completed(base, tensors).contains_key(
                (#[trigger] tensors[i]).name@,
            ),
    decreases tensors.len(),
{
    if tensors.len() > 0 {
        completed_keeps(base, tensors.drop_last());
        assert forall|i: int| 0 <= i < tensors.len() implies completed(base, tensors).contains_key(
            (#[trigger] tensors[i]).name@,
        ) by {
            if i < tensors.len() - 1 {
                assert(tensors.drop_last()[i] == tensors[i]);
            }
        }
    }
}

// ─── What a bank holds ───────────────────────────────────────────────────────

/// The index holds nothing but tensors of the model, each under its own name. The result
/// is the position of the one that stands under `name`.
pub proof fn index_holds_nothing_else(tensors: Seq<TensorInfo>, name: Seq<char>) -> (i: int)
    requires
        indexed(tensors).contains_key(name),
    ensures
        0 <= i < tensors.len(),
        tensors[i].name@ == name,
        indexed(tensors)[name] == tensors[i],
    decreases tensors.len(),
{
    if tensors.last().name@ == name {
        tensors.len() - 1
    } else {
        index_holds_nothing_else(tensors.drop_last(), name)
    }
}

/// Every tensor is found under its name, unless a later one has the same name.
pub proof fn last_of_a_name_is_found(tensors: Seq<TensorInfo>, i: int)
    requires
        0 <= i < tensors.len(),
        forall|j: int| i < j < tensors.len() ==> (#[trigger] tensors[j]).name@ != tensors[i].name@,
    ensures
        indexed(tensors).contains_key(tensors[i].name@),
        indexed(tensors)[tensors[i].name@] == tensors[i],
    decreases tensors.len(),
{
    if i < tensors.len() - 1 {
        last_of_a_name_is_found(tensors.drop_last(), i);
        assert(tensors.last().name@ != tensors[i].name@);
    }
}

/// A bank holds nothing but what was loaded, under its own name. The result is the
/// position of what stands under `name`.
pub proof fn bank_holds_nothing_else(
    loaded: Seq<(Seq<char>, Seq<u8>)>,
    name: Seq<char>,
) -> (i: int)
    requires
        filled(loaded).contains_key(name),
    ensures
        0 <= i < loaded.len(),
        loaded[i].0 == name,
        filled(loaded)[name] == loaded[i].1,
    decreases loaded.len(),
{
    if loaded.last().0 == name {
        loaded.len() - 1
    } else {
        bank_holds_nothing_else(loaded.drop_last(), name)
    }
}

/// Whatever was loaded stands under its name, unless something later has the same name.
pub proof fn last_bytes_of_a_name_are_kept(loaded: Seq<(Seq<char>, Seq<u8>)>, i: int)
    requires
        0 <= i < loaded.len(),
        forall|j: int| i < j < loaded.len() ==> (#[trigger] loaded[j]).0 != loaded[i].0,
    ensures
        filled(loaded).contains_key(loaded[i].0),
        filled(loaded)[loaded[i].0] == loaded[i].1,
    decreases loaded.len(),
{
    if i < loaded.len() - 1 {
        last_bytes_of_a_name_are_kept(loaded.drop_last(), i);
        assert(loaded.last().0 != loaded[i].0);
    }
}

/// A tensor that a bank lacks is there when the bank is complete: full of zeros, and of the
/// size that the first of its name has.
pub proof fn missing_tensors_are_blank(
    bank: Map<Seq<char>, Seq<u8>>,
    tensors: Seq<TensorInfo>,
    i: int,
)
    requires
        0 <= i < tensors.len(),
        !bank.contains_key(tensors[i].name@),
        forall|j: int| 0 <= j < i ==> (#[trigger] tensors[j]).name@ != tensors[i].name@,
    ensures
        completed(bank, tensors).contains_key(tensors[i].name@),
        ({
            let bytes = completed(bank, tensors)[tensors[i].name@];
            let n = elements(tensors[i].shape@);
            &&& bytes.len() == if n == 0 {
                4
            } else {
                4 * n
            }
            &&& forall|k: int| 0 <= k < bytes.len() ==> #[trigger] bytes[k] == 0
        }),
    decreases tensors.len(),
{
    let before = tensors.drop_last();
    if i < before.len() {
        missing_tensors_are_blank(bank, before, i);
    } else if completed(bank, before).contains_key(tensors[i].name@) {
        let k = completing_adds_nothing_else(bank, before, tensors[i].name@);
        assert(tensors[k].name@ != tensors[i].name@);
    }
}

/// To complete a bank adds tensors of the model and nothing else. The result is the
/// position of the tensor that was added under `name`.
pub proof fn completing_adds_nothing_else(
    bank: Map<Seq<char>, Seq<u8>>,
    tensors: Seq<TensorInfo>,
    name: Seq<char>,
) -> (i: int)
    requires
        !bank.contains_key(name),
        completed(bank, tensors).contains_key(name),
    ensures
        0 <= i < tensors.len(),
        tensors[i].name@ == name,
    decreases tensors.len(),
{
    if completed(bank, tensors.drop_last()).contains_key(name) {
        completing_adds_nothing_else(bank, tensors.drop_last(), name)
    } else {
        tensors.len() - 1
    }
}

/// The number of elements is the product of the sides: it multiplies where shapes are put
/// together, one side holds as many elements as it is long, and no side at all holds one.
pub proof fn elements_multiply(a: Seq<usize>, b: Seq<usize>, n: usize)
    ensures
        elements(a + b) == elements(a) * elements(b),
        elements(seq![n]) == n,
        elements(Seq::<usize>::empty()) == 1,
    decreases b.len(),
{
    let one = seq![n];
    assert(one.drop_last().len() == 0);
    assert(elements(one.drop_last()) == 1);
    assert(elements(one) == 1 * n as nat);
    let x = elements(a) as int;
    if b.len() == 0 {
        assert(a + b =~= a);
        assert(elements(b) == 1);
        assert(x * 1 == x);
    } else {
        elements_multiply(a, b.drop_last(), n);
        assert((a + b).drop_last() =~= a + b.drop_last());
        let y = elements(b.drop_last()) as int;
        let z = b.last() as int;
        assert(elements(b) == y * z);
        assert((x * y) * z == x * (y * z)) by (nonlinear_arith);
        assert((a + b).last() == b.last());
        assert(elements((a + b).drop_last()) == x * y);
        assert(elements(a + b) == (x * y) * z);
    }
}

/// A model without an output matrix of its own uses the embedding for it; one that has
/// its own keeps it. Nothing else changes.
pub proof fn output_is_tied_to_the_embedding(bank: Map<Seq<char>, Seq<u8>>, name: Seq<char>)
    ensures
        ({
            let whole = tied(bank, tied_output(bank));
            let output = "output.weight"@;
            let embedding = "token_embd.weight"@;
            &&& name != output || bank.contains_key(output) ==> whole.contains_key(name)
                == bank.contains_key(name) && whole[name] == bank[name]
            &&& !bank.contains_key(output) && bank.contains_key(embedding)
                && bank[embedding].len() >= 4 ==> whole.contains_key(output) && whole[output]
                == bank[embedding].take(bank[embedding].len() - bank[embedding].len() % 4)
            &&& !bank.contains_key(output) && !bank.contains_key(embedding)
                ==> !whole.contains_key(output)
        }),
{
}

} // verus!
