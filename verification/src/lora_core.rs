//! Low-rank adapters: the adapter file format, architecture checks, and the
//! scheduler that adapts the speculative block length.
//!
//! Factors are kept as the bit patterns of single-precision numbers: the file
//! format stores them bit for bit, and nothing here computes with them.
//!
//! File layout, all words little-endian: magic, version, hidden dimension,
//! rank, alpha, number of layers; then for each layer the length of its name,
//! the name in UTF-8, input and output features, rank, and the words of its two
//! factors.

use vstd::prelude::*;
use vstd::utf8::{decode_utf8, encode_utf8, valid_utf8};

use crate::errors::NodeStorError;
use crate::float_bits::{check_lt, float_lt};
use crate::le_bytes::{
    copy_bytes, le32, le32_between, le32_bytes, number_of_bytes, push_bytes, push_u32,
    push_words, read_u32, read_words, words, words_are_little_endian, words_at, words_between,
    words_len, words_stand_in_a_row,
};
use crate::named_map::NamedMap;
use crate::text::{dec, hex, push_dec, push_dec_wide, push_hex, utf8_string};

verus! {

pub const LORA_MAGIC: u32 = 0x4C4F_5241;

pub const LORA_VERSION: u32 = 1;

// ─── Layers ──────────────────────────────────────────────────────────────────

/// The adapter of one linear projection. `a` is `in_features × rank` and `b` is
/// `rank × out_features`, both row by row.
pub struct LoraLayer {
    pub a: Vec<u32>,
    pub b: Vec<u32>,
    pub rank: usize,
    pub in_features: usize,
    pub out_features: usize,
    pub alpha: u32,
}

/// A layer as a mathematical value.
pub struct LayerModel {
    pub a: Seq<u32>,
    pub b: Seq<u32>,
    pub rank: nat,
    pub in_features: nat,
    pub out_features: nat,
    pub alpha: u32,
}

impl View for LoraLayer {
    type V = LayerModel;

    open spec fn view(&self) -> LayerModel {
        LayerModel {
            a: self.a@,
            b: self.b@,
            rank: self.rank as nat,
            in_features: self.in_features as nat,
            out_features: self.out_features as nat,
            alpha: self.alpha,
        }
    }
}

impl LayerModel {
    /// The factors have the sizes that the dimensions ask for, and the
    /// dimensions can be written down.
    pub open spec fn fits(self) -> bool {
        &&& self.a.len() == self.in_features * self.rank
        &&& self.b.len() == self.rank * self.out_features
        &&& self.in_features <= u32::MAX
        &&& self.out_features <= u32::MAX
        &&& self.rank <= u32::MAX
    }
}

/// The pseudo-random word from which entry `i` of a fresh input factor is drawn.
pub fn init_word(i: u64) -> (x: u64)
    ensures
        x == (i.wrapping_mul(6_364_136_223_846_793_005).wrapping_add(1_442_695_040_888_963_407)
            >> 33),
{
    i.wrapping_mul(6_364_136_223_846_793_005).wrapping_add(1_442_695_040_888_963_407) >> 33
}

impl LoraLayer {
    /// A fresh adapter with the input factor `a` and an output factor of zeros,
    /// so that its initial contribution is nothing.
    pub fn new(
        in_features: usize,
        out_features: usize,
        rank: usize,
        alpha: u32,
        a: Vec<u32>,
    ) -> (l: LoraLayer)
        requires
            rank * out_features <= usize::MAX,
        ensures
            l.a == a,
            l.b@ == Seq::new((rank * out_features) as nat, |i: int| 0u32),
            l.rank == rank,
            l.in_features == in_features,
            l.out_features == out_features,
            l.alpha == alpha,
    {
        let n: usize = rank * out_features;
        let b: Vec<u32> = vec![0u32; n];
        assert(b@ =~= Seq::new(n as nat, |i: int| 0u32));
        LoraLayer { a, b, rank, in_features, out_features, alpha }
    }
}

// ─── The file format ─────────────────────────────────────────────────────────

/// A bank as a mathematical value.
pub struct BankModel {
    pub layers: Map<Seq<char>, LayerModel>,
    pub hidden_dim: nat,
    pub rank: nat,
    pub alpha: u32,
}

/// The bytes of one layer.
pub open spec fn layer_bytes(name: Seq<char>, l: LayerModel) -> Seq<u8> {
    le32_bytes(encode_utf8(name).len() as u32) + encode_utf8(name) + le32_bytes(
        l.in_features as u32,
    ) + le32_bytes(l.out_features as u32) + le32_bytes(l.rank as u32) + words(l.a) + words(l.b)
}

/// The bytes of layers, one after the other.
pub open spec fn layers_bytes(layers: Seq<(Seq<char>, LayerModel)>) -> Seq<u8>
    decreases layers.len(),
{
    if layers.len() == 0 {
        Seq::empty()
    } else {
        layer_bytes(layers[0].0, layers[0].1) + layers_bytes(layers.skip(1))
    }
}

/// The bytes before the layers.
pub open spec fn header_bytes(hidden_dim: u32, rank: u32, alpha: u32, n_layers: u32) -> Seq<u8> {
    le32_bytes(LORA_MAGIC) + le32_bytes(LORA_VERSION) + le32_bytes(hidden_dim) + le32_bytes(rank)
        + le32_bytes(alpha) + le32_bytes(n_layers)
}

/// The message for a file that ends inside a word.
pub open spec fn truncated_word() -> Seq<char> {
    "Arquivo .lora truncado (u32)"@
}

/// Reads one layer at `p`: its name, the layer, and where it ends; or the
/// message that says what is wrong.
pub open spec fn parse_layer(data: Seq<u8>, p: int, alpha: u32) -> Result<
    (Seq<char>, LayerModel, int),
    Seq<char>,
> {
    if p + 4 > data.len() {
        Err(truncated_word())
    } else {
        let q = p + 4 + le32(data, p);
        let raw = data.subrange(p + 4, q);
        if q > data.len() {
            Err("Nome de camada truncado"@)
        } else if !valid_utf8(raw) {
            Err("Nome de camada inválido (UTF-8)"@)
        } else if q + 12 > data.len() {
            Err(truncated_word())
        } else {
            let in_features = le32(data, q) as nat;
            let out_features = le32(data, q + 4) as nat;
            let rank = le32(data, q + 8) as nat;
            let a_len = in_features * rank;
            let b_len = rank * out_features;
            let body = q + 12;
            let end = body + (a_len + b_len) * 4;
            if end > data.len() {
                Err(
                    "Dados da camada '"@ + decode_utf8(raw) + "' truncados: esperado "@ + dec(
                        ((a_len + b_len) * 4) as nat,
                    ) + " bytes, disponível "@ + dec((data.len() - body) as nat),
                )
            } else {
                Ok(
                    (
                        decode_utf8(raw),
                        LayerModel {
                            a: words_at(data, body, a_len as nat),
                            b: words_at(data, body + 4 * a_len, b_len as nat),
                            rank,
                            in_features,
                            out_features,
                            alpha,
                        },
                        end,
                    ),
                )
            }
        }
    }
}

/// Reads `n` layers from `p` on into `layers`. A later layer replaces an earlier
/// one of the same name.
pub open spec fn parse_layers(
    data: Seq<u8>,
    p: int,
    n: nat,
    alpha: u32,
    layers: Map<Seq<char>, LayerModel>,
) -> Result<Map<Seq<char>, LayerModel>, Seq<char>>
    decreases n,
{
    if n == 0 {
        Ok(layers)
    } else {
        match parse_layer(data, p, alpha) {
            Ok(x) => parse_layers(data, x.2, (n - 1) as nat, alpha, layers.insert(x.0, x.1)),
            Err(m) => Err(m),
        }
    }
}

/// What a file of these bytes holds, or the message that says what is wrong
/// with it.
pub open spec fn parse_bank(data: Seq<u8>) -> Result<BankModel, Seq<char>> {
    if data.len() < 4 {
        Err(truncated_word())
    } else if le32(data, 0) != LORA_MAGIC {
        Err(
            "Arquivo não é um .lora válido (magic=0x"@ + hex(le32(data, 0) as nat, 8)
                + ", esperado=0x"@ + hex(LORA_MAGIC as nat, 8)
                + "). Verifique se o arquivo não está corrompido."@,
        )
    } else if data.len() < 8 {
        Err(truncated_word())
    } else if le32(data, 4) != LORA_VERSION {
        Err(
            "Versão .lora não suportada: "@ + dec(le32(data, 4) as nat) + " (suportado: "@ + dec(
                LORA_VERSION as nat,
            ) + ")"@,
        )
    } else if data.len() < 24 {
        Err(truncated_word())
    } else {
        match parse_layers(data, 24, le32(data, 20) as nat, le32(data, 16), Map::empty()) {
            Ok(layers) => Ok(
                BankModel {
                    layers,
                    hidden_dim: le32(data, 8) as nat,
                    rank: le32(data, 12) as nat,
                    alpha: le32(data, 16),
                },
            ),
            Err(m) => Err(m),
        }
    }
}

fn read_layer(data: &[u8], p: usize, alpha: u32) -> (r: Result<(String, LoraLayer, usize), String>)
    requires
        p <= data@.len(),
    ensures
        match (r, parse_layer(data@, p as int, alpha)) {
            (Ok(x), Ok(y)) => x.0@ == y.0 && x.1@ == y.1 && x.2 == y.2 && x.2 <= data@.len(),
            (Err(m), Err(t)) => m@ == t,
            _ => false,
        },
{
    let n: usize = data.len();
    if n - p < 4 {
        return Err("Arquivo .lora truncado (u32)".to_string());
    }
    let name_len: u32 = read_u32(data, p);
    if (n - p - 4) < name_len as usize {
        return Err("Nome de camada truncado".to_string());
    }
    let q: usize = p + 4 + name_len as usize;
    let name = match utf8_string(copy_bytes(data, p + 4, q)) {
        Some(s) => s,
        None => {
            return Err("Nome de camada inválido (UTF-8)".to_string());
        },
    };
    if n - q < 12 {
        return Err("Arquivo .lora truncado (u32)".to_string());
    }
    let in_features: u32 = read_u32(data, q);
    let out_features: u32 = read_u32(data, q + 4);
    let rank: u32 = read_u32(data, q + 8);
    let body: usize = q + 12;
    proof {
        assert(in_features * rank <= 0xffff_ffff * 0xffff_ffff) by (nonlinear_arith)
            requires
                0 <= in_features <= 0xffff_ffff,
                0 <= rank <= 0xffff_ffff,
        ;
        assert(rank * out_features <= 0xffff_ffff * 0xffff_ffff) by (nonlinear_arith)
            requires
                0 <= out_features <= 0xffff_ffff,
                0 <= rank <= 0xffff_ffff,
        ;
        assert(0 <= in_features * rank) by (nonlinear_arith)
            requires
                0 <= in_features,
                0 <= rank,
        ;
        assert(0 <= rank * out_features) by (nonlinear_arith)
            requires
                0 <= out_features,
                0 <= rank,
        ;
    }
    let a_wide: u128 = (in_features as u128) * (rank as u128);
    let b_wide: u128 = (rank as u128) * (out_features as u128);
    let need: u128 = (a_wide + b_wide) * 4;
    if need > (n - body) as u128 {
        let mut m = "Dados da camada '".to_string();
        m.append(name.as_str());
        m.append("' truncados: esperado ");
        push_dec_wide(&mut m, need);
        m.append(" bytes, disponível ");
        push_dec(&mut m, (n - body) as u64);
        return Err(m);
    }
    let a_len: usize = a_wide as usize;
    let b_len: usize = b_wide as usize;
    let a = read_words(data, body, a_len);
    let b = read_words(data, body + 4 * a_len, b_len);
    let end: usize = body + (a_len + b_len) * 4;
    Ok(
        (
            name,
            LoraLayer {
                a,
                b,
                rank: rank as usize,
                in_features: in_features as usize,
                out_features: out_features as usize,
                alpha,
            },
            end,
        ),
    )
}

fn write_layer(out: &mut Vec<u8>, name: &String, l: &LoraLayer)
    ensures
        final(out)@ == old(out)@ + layer_bytes(name@, l@),
{
    let bytes = name.as_str().as_bytes();
    push_u32(out, bytes.len() as u32);
    push_bytes(out, bytes);
    push_u32(out, l.in_features as u32);
    push_u32(out, l.out_features as u32);
    push_u32(out, l.rank as u32);
    push_words(out, &l.a);
    push_words(out, &l.b);
    assert(out@ =~= old(out)@ + layer_bytes(name@, l@));
}

// ─── The bank ────────────────────────────────────────────────────────────────

/// A checkpoint: adapters by layer name, with the architecture they are for.
pub struct LoraBank {
    pub layers: NamedMap<LoraLayer>,
    /// The hidden dimension of the model that the adapters were trained for.
    pub hidden_dim: usize,
    pub rank: usize,
    pub alpha: u32,
}

/// What a merge does to a layer.
#[derive(Debug, Clone, Copy, PartialEq, Eq, Structural)]
pub enum MergeAction {
    /// The layer is taken over, scaled.
    TakeOver,
    /// The scaled matrices are added where they have the same size.
    Combine { a: bool, b: bool },
}

/// What a merge does to the layer `name` of another bank.
pub open spec fn merge_action(
    ours: Map<Seq<char>, LoraLayer>,
    name: Seq<char>,
    theirs: LoraLayer,
) -> MergeAction {
    if ours.contains_key(name) {
        MergeAction::Combine {
            a: ours[name].a@.len() == theirs.a@.len(),
            b: ours[name].b@.len() == theirs.b@.len(),
        }
    } else {
        MergeAction::TakeOver
    }
}

impl View for LoraBank {
    type V = BankModel;

    open spec fn view(&self) -> BankModel {
        BankModel {
            layers: self.layers@.map_values(|l: LoraLayer| l@),
            hidden_dim: self.hidden_dim as nat,
            rank: self.rank as nat,
            alpha: self.alpha,
        }
    }
}

impl LoraBank {
    /// No layer name occurs twice.
    pub open spec fn wf(&self) -> bool {
        self.layers.wf()
    }

    /// The layers with their names, in the order in which they are written.
    pub open spec fn listing(&self) -> Seq<(Seq<char>, LayerModel)> {
        self.layers.entries@.map_values(|e: (String, LoraLayer)| (e.0@, e.1@))
    }

    /// The bytes of the bank's file.
    pub open spec fn file_bytes(&self) -> Seq<u8> {
        header_bytes(
            self.hidden_dim as u32,
            self.rank as u32,
            self.alpha,
            self.layers.entries@.len() as u32,
        ) + layers_bytes(self.listing())
    }

    /// Everything in the bank can be written down without loss.
    pub open spec fn writable(&self) -> bool {
        &&& self.hidden_dim <= u32::MAX
        &&& self.rank <= u32::MAX
        &&& self.layers.entries@.len() <= u32::MAX
        &&& forall|i: int|
            0 <= i < self.layers.entries@.len() ==> {
                let e = #[trigger] self.layers.entries@[i];
                &&& e.1@.fits()
                &&& e.1.alpha == self.alpha
                &&& encode_utf8(e.0@).len() <= u32::MAX
            }
    }

    /// A bank without layers.
    pub fn new(hidden_dim: usize, rank: usize, alpha: u32) -> (b: LoraBank)
        ensures
            b.wf(),
            b@ == (BankModel {
                layers: Map::empty(),
                hidden_dim: hidden_dim as nat,
                rank: rank as nat,
                alpha,
            }),
            b.layers.entries@.len() == 0,
    {
        let b = LoraBank { layers: NamedMap::new(), hidden_dim, rank, alpha };
        assert(b@.layers =~= Map::empty());
        b
    }

    /// Sets the adapter of the layer `name`.
    pub fn insert(&mut self, name: String, layer: LoraLayer)
        requires
            old(self).wf(),
        ensures
            final(self).wf(),
            final(self)@ == (BankModel {
                layers: old(self)@.layers.insert(name@, layer@),
                ..old(self)@
            }),
            final(self).layers@ == old(self).layers@.insert(name@, layer),
    {
        let ghost before = *self;
        self.layers.insert(name, layer);
        assert(self@.layers =~= before@.layers.insert(name@, layer@));
    }

    /// The adapter of the layer `name`.
    pub fn get(&self, name: &str) -> (r: Option<&LoraLayer>)
        requires
            self.wf(),
        ensures
            match r {
                Some(l) => self@.layers.contains_key(name@) && l@ == self@.layers[name@] && *l
                    == self.layers@[name@],
                None => !self@.layers.contains_key(name@),
            },
    {
        self.layers.get(name)
    }

    /// The adapter of the layer `name`, to be changed in place.
    pub fn get_mut(&mut self, name: &str) -> (r: Option<&mut LoraLayer>)
        requires
            old(self).wf(),
        ensures
            final(self).wf(),
            final(self).hidden_dim == old(self).hidden_dim,
            final(self).rank == old(self).rank,
            final(self).alpha == old(self).alpha,
            match r {
                Some(l) => old(self).layers@.contains_key(name@) && *l == old(self).layers@[name@]
                    && final(self).layers@ == old(self).layers@.insert(name@, *final(l)),
                None => !old(self).layers@.contains_key(name@) && *final(self) == *old(self),
            },
    {
        self.layers.get_mut(name)
    }

    /// What a merge with another bank does to each of its layers: a layer that
    /// is not here is taken over, and one that is here takes each of the two
    /// matrices that have the same size.
    pub fn merge_actions(&self, other: &LoraBank) -> (r: Vec<MergeAction>)
        requires
            self.layers.wf(),
        ensures
            r@.len() == other.layers.entries@.len(),
            forall|i: int|
                0 <= i < r@.len() ==> #[trigger] r@[i] == merge_action(
                    self.layers@,
                    other.layers.entries@[i].0@,
                    other.layers.entries@[i].1,
                ),
    {
        let mut r: Vec<MergeAction> = Vec::new();
        let mut i: usize = 0;
        while i < other.layers.entries.len()
            invariant
                self.layers.wf(),
                i <= other.layers.entries@.len(),
                r@.len() == i,
                forall|j: int|
                    0 <= j < i ==> #[trigger] r@[j] == merge_action(
                        self.layers@,
                        other.layers.entries@[j].0@,
                        other.layers.entries@[j].1,
                    ),
            decreases other.layers.entries@.len() - i,
        {
            let theirs = &other.layers.entries[i].1;
            let action = match self.layers.get(other.layers.entries[i].0.as_str()) {
                Some(ours) => MergeAction::Combine {
                    a: ours.a.len() == theirs.a.len(),
                    b: ours.b.len() == theirs.b.len(),
                },
                None => MergeAction::TakeOver,
            };
            r.push(action);
            i = i + 1;
        }
        r
    }

    /// Whether the adapters are for a model of hidden dimension `model_hidden`.
    pub fn check_compatible(&self, model_hidden: usize) -> (r: Result<(), NodeStorError>)
        ensures
            match r {
                Ok(_) => self.hidden_dim == model_hidden,
                Err(e) => self.hidden_dim != model_hidden && e is InferenceError && e.text()
                    == "Incompatibilidade de arquitetura LoRA: adaptador treinado para hidden_dim="@
                    + dec(self.hidden_dim as nat) + " mas o modelo carregado tem hidden_dim="@
                    + dec(model_hidden as nat)
                    + ". Use um adaptador treinado para este modelo específico."@,
            },
    {
        if self.hidden_dim != model_hidden {
            let mut m =
                "Incompatibilidade de arquitetura LoRA: adaptador treinado para hidden_dim=".to_string();
            push_dec(&mut m, self.hidden_dim as u64);
            m.append(" mas o modelo carregado tem hidden_dim=");
            push_dec(&mut m, model_hidden as u64);
            m.append(". Use um adaptador treinado para este modelo específico.");
            return Err(NodeStorError::InferenceError(m));
        }
        Ok(())
    }

    /// The bytes of the bank's file.
    pub fn save(&self) -> (out: Vec<u8>)
        ensures
            out@ == self.file_bytes(),
    {
        let mut out: Vec<u8> = Vec::new();
        push_u32(&mut out, LORA_MAGIC);
        push_u32(&mut out, LORA_VERSION);
        push_u32(&mut out, self.hidden_dim as u32);
        push_u32(&mut out, self.rank as u32);
        push_u32(&mut out, self.alpha);
        push_u32(&mut out, self.layers.len() as u32);
        let ghost list = self.listing();
        proof {
            assert(out@ =~= header_bytes(
                self.hidden_dim as u32,
                self.rank as u32,
                self.alpha,
                self.layers.entries@.len() as u32,
            ));
            assert(list.skip(0) =~= list);
        }
        let mut i: usize = 0;
        while i < self.layers.entries.len()
            invariant
                i <= self.layers.entries@.len(),
                list == self.listing(),
                out@ + layers_bytes(list.skip(i as int)) == self.file_bytes(),
            decreases self.layers.entries@.len() - i,
        {
            let ghost before = out@;
            write_layer(&mut out, &self.layers.entries[i].0, &self.layers.entries[i].1);
            proof {
                let e = self.layers.entries@[i as int];
                assert(list.skip(i as int)[0] == (e.0@, e.1@));
                assert(list.skip(i as int).skip(1) =~= list.skip(i + 1));
                assert(out@ + layers_bytes(list.skip(i + 1)) =~= before + layers_bytes(
                    list.skip(i as int),
                ));
            }
            i = i + 1;
        }
        assert(out@ =~= self.file_bytes());
        out
    }

    /// The bank whose file holds `data`.
    pub fn load(data: &[u8]) -> (r: Result<LoraBank, NodeStorError>)
        ensures
            match (r, parse_bank(data@)) {
                (Ok(b), Ok(m)) => b.wf() && b@ == m,
                (Err(e), Err(t)) => e is InferenceError && e.text() == t,
                _ => false,
            },
    {
        let n: usize = data.len();
        if n < 4 {
            return Err(NodeStorError::InferenceError("Arquivo .lora truncado (u32)".to_string()));
        }
        let magic: u32 = read_u32(data, 0);
        if magic != LORA_MAGIC {
            let mut m = "Arquivo não é um .lora válido (magic=0x".to_string();
            push_hex(&mut m, magic, 8);
            m.append(", esperado=0x");
            push_hex(&mut m, LORA_MAGIC, 8);
            m.append("). Verifique se o arquivo não está corrompido.");
            return Err(NodeStorError::InferenceError(m));
        }
        if n < 8 {
            return Err(NodeStorError::InferenceError("Arquivo .lora truncado (u32)".to_string()));
        }
        let version: u32 = read_u32(data, 4);
        if version != LORA_VERSION {
            let mut m = "Versão .lora não suportada: ".to_string();
            push_dec(&mut m, version as u64);
            m.append(" (suportado: ");
            push_dec(&mut m, LORA_VERSION as u64);
            m.append(")");
            return Err(NodeStorError::InferenceError(m));
        }
        if n < 24 {
            return Err(NodeStorError::InferenceError("Arquivo .lora truncado (u32)".to_string()));
        }
        let hidden_dim: u32 = read_u32(data, 8);
        let rank: u32 = read_u32(data, 12);
        let alpha: u32 = read_u32(data, 16);
        let n_layers: u32 = read_u32(data, 20);
        let mut bank = LoraBank::new(hidden_dim as usize, rank as usize, alpha);
        let mut p: usize = 24;
        let mut left: u32 = n_layers;
        let ghost whole = parse_layers(data@, 24, n_layers as nat, alpha, Map::empty());
        while left > 0
            invariant
                p <= data@.len(),
                bank.wf(),
                bank.hidden_dim == hidden_dim,
                bank.rank == rank,
                bank.alpha == alpha,
                whole == parse_layers(data@, p as int, left as nat, alpha, bank@.layers),
                match parse_bank(data@) {
                    Ok(m) => whole == Ok::<Map<Seq<char>, LayerModel>, Seq<char>>(m.layers)
                        && m.hidden_dim == hidden_dim && m.rank == rank && m.alpha == alpha,
                    Err(t) => whole == Err::<Map<Seq<char>, LayerModel>, Seq<char>>(t),
                },
            decreases left,
        {
            match read_layer(data, p, alpha) {
                Ok((name, layer, end)) => {
                    bank.insert(name, layer);
                    p = end;
                },
                Err(m) => {
                    return Err(NodeStorError::InferenceError(m));
                },
            }
            left = left - 1;
        }
        Ok(bank)
    }

    /// Loading what was saved gives the bank back.
    pub proof fn load_undoes_save(&self)
        requires
            self.wf(),
            self.writable(),
        ensures
            parse_bank(self.file_bytes()) == Ok::<BankModel, Seq<char>>(self@),
    {
        broadcast use crate::le_bytes::le32_bytes_len;

        let data = self.file_bytes();
        let n = self.layers.entries@.len();
        let list = self.listing();
        let body = layers_bytes(list);
        let e5 = le32_bytes(n as u32) + body;
        let e4 = le32_bytes(self.alpha) + e5;
        let e3 = le32_bytes(self.rank as u32) + e4;
        let e2 = le32_bytes(self.hidden_dim as u32) + e3;
        let e1 = le32_bytes(LORA_VERSION) + e2;
        let s0 = Seq::<u8>::empty();
        let s1 = le32_bytes(LORA_MAGIC);
        let s2 = s1 + le32_bytes(LORA_VERSION);
        let s3 = s2 + le32_bytes(self.hidden_dim as u32);
        let s4 = s3 + le32_bytes(self.rank as u32);
        let s5 = s4 + le32_bytes(self.alpha);
        assert(data =~= s0 + le32_bytes(LORA_MAGIC) + e1);
        assert(data =~= s1 + le32_bytes(LORA_VERSION) + e2);
        assert(data =~= s2 + le32_bytes(self.hidden_dim as u32) + e3);
        assert(data =~= s3 + le32_bytes(self.rank as u32) + e4);
        assert(data =~= s4 + le32_bytes(self.alpha) + e5);
        assert(data =~= s5 + le32_bytes(n as u32) + body);
        le32_between(s0, LORA_MAGIC, e1);
        le32_between(s1, LORA_VERSION, e2);
        le32_between(s2, self.hidden_dim as u32, e3);
        le32_between(s3, self.rank as u32, e4);
        le32_between(s4, self.alpha, e5);
        le32_between(s5, n as u32, body);
        assert(data.subrange(24, data.len() as int) =~= layers_bytes(list));
        parse_layers_reads_back(data, 24, list, self.alpha, Map::empty());
        self.layers_from_listing(n as int);
        assert(list.take(n as int) =~= list);
        assert(self@.layers =~= inserted(Map::empty(), list));
    }

    /// The first `k` entries, inserted one after the other, give the view
    /// restricted to their names.
    proof fn layers_from_listing(&self, k: int)
        requires
            self.wf(),
            0 <= k <= self.layers.entries@.len(),
        ensures
            ({
                let m = inserted(Map::empty(), self.listing().take(k));
                &&& forall|name: Seq<char>| #[trigger]
                    m.contains_key(name) <==> exists|i: int|
                        0 <= i < k && self.layers.entries@[i].0@ == name
                &&& forall|i: int|
                    0 <= i < k ==> m[(#[trigger] self.layers.entries@[i]).0@]
                        == self.layers.entries@[i].1@
            }),
            k == self.layers.entries@.len() ==> self@.layers =~= inserted(
                Map::empty(),
                self.listing().take(k),
            ),
        decreases k,
    {
        let list = self.listing();
        let entries = self.layers.entries@;
        let m = inserted(Map::empty(), list.take(k));
        if k > 0 {
            self.layers_from_listing(k - 1);
            let prev = inserted(Map::empty(), list.take(k - 1));
            assert(list.take(k).drop_last() =~= list.take(k - 1));
            assert(list.take(k).last() == (entries[k - 1].0@, entries[k - 1].1@));
            assert(m == prev.insert(entries[k - 1].0@, entries[k - 1].1@));
            assert forall|name: Seq<char>| #[trigger] m.contains_key(name) <==> exists|i: int|
                0 <= i < k && entries[i].0@ == name by {
                if m.contains_key(name) {
                    if name == entries[k - 1].0@ {
                        assert(0 <= k - 1 < k && entries[k - 1].0@ == name);
                    } else {
                        assert(prev.contains_key(name));
                        let i = choose|i: int| 0 <= i < k - 1 && entries[i].0@ == name;
                        assert(0 <= i < k && entries[i].0@ == name);
                    }
                }
                if exists|i: int| 0 <= i < k && entries[i].0@ == name {
                    let i = choose|i: int| 0 <= i < k && entries[i].0@ == name;
                    if i < k - 1 {
                        assert(prev.contains_key(name));
                    }
                }
            }
        }
        if k == entries.len() {
            assert forall|name: Seq<char>| self@.layers.contains_key(name) == m.contains_key(
                name,
            ) by {
                if self@.layers.contains_key(name) {
                    let i = choose|i: int| crate::named_map::named_at(entries, name, i);
                    assert(entries[i].0@ == name);
                }
                if m.contains_key(name) {
                    let i = choose|i: int| 0 <= i < k && entries[i].0@ == name;
                    self.layers.entry_in_view(i);
                }
            }
            assert forall|name: Seq<char>| self@.layers.contains_key(name) implies m[name]
                == self@.layers[name] by {
                let i = choose|i: int| crate::named_map::named_at(entries, name, i);
                self.layers.entry_in_view(i);
                assert(m[entries[i].0@] == entries[i].1@);
            }
            assert(self@.layers =~= m);
        }
    }
}

/// `layers` after the entries of `list` are inserted one after the other.
pub open spec fn inserted(
    layers: Map<Seq<char>, LayerModel>,
    list: Seq<(Seq<char>, LayerModel)>,
) -> Map<Seq<char>, LayerModel>
    decreases list.len(),
{
    if list.len() == 0 {
        layers
    } else {
        inserted(layers, list.drop_last()).insert(list.last().0, list.last().1)
    }
}

proof fn inserted_first(
    layers: Map<Seq<char>, LayerModel>,
    list: Seq<(Seq<char>, LayerModel)>,
)
    requires
        list.len() > 0,
    ensures
        inserted(layers, list) == inserted(layers.insert(list[0].0, list[0].1), list.skip(1)),
    decreases list.len(),
{
    if list.len() == 1 {
        assert(list.drop_last() =~= Seq::empty());
        assert(list.skip(1) =~= Seq::empty());
        assert(inserted(layers, list.drop_last()) == layers);
    } else {
        inserted_first(layers, list.drop_last());
        assert(list.skip(1).drop_last() =~= list.drop_last().skip(1));
        assert(list.skip(1).last() == list.last());
        assert(list.drop_last()[0] == list[0]);
    }
}

/// The bytes before a layer, the layer and the bytes after it, cut at each of
/// its parts.
proof fn same_bytes_in_parts(
    before: Seq<u8>,
    len: Seq<u8>,
    raw: Seq<u8>,
    inf: Seq<u8>,
    outf: Seq<u8>,
    rank: Seq<u8>,
    wa: Seq<u8>,
    wb: Seq<u8>,
    after: Seq<u8>,
)
    ensures
        ({
            let data = before + (len + raw + inf + outf + rank + wa + wb) + after;
            let end6 = wb + after;
            let end5 = wa + end6;
            let end4 = rank + end5;
            let end3 = outf + end4;
            let end2 = inf + end3;
            let end1 = raw + end2;
            let s1 = before + len;
            let s2 = s1 + raw;
            let s3 = s2 + inf;
            let s4 = s3 + outf;
            let s5 = s4 + rank;
            let s6 = s5 + wa;
            &&& data == before + len + end1
            &&& data == s1 + raw + end2
            &&& data == s2 + inf + end3
            &&& data == s3 + outf + end4
            &&& data == s4 + rank + end5
            &&& data == s5 + wa + end6
            &&& data == s6 + wb + after
        }),
{
    let data = before + (len + raw + inf + outf + rank + wa + wb) + after;
    let s1 = before + len;
    let s2 = s1 + raw;
    let s3 = s2 + inf;
    let s4 = s3 + outf;
    let s5 = s4 + rank;
    let s6 = s5 + wa;
    assert(data =~= s6 + wb + after);
    assert(s6 + wb + after =~= s5 + wa + (wb + after));
    let end6 = wb + after;
    assert(s5 + wa + end6 =~= s4 + rank + (wa + end6));
    let end5 = wa + end6;
    assert(s4 + rank + end5 =~= s3 + outf + (rank + end5));
    let end4 = rank + end5;
    assert(s3 + outf + end4 =~= s2 + inf + (outf + end4));
    let end3 = outf + end4;
    assert(s2 + inf + end3 =~= s1 + raw + (inf + end3));
    let end2 = inf + end3;
    assert(s1 + raw + end2 =~= before + len + (raw + end2));
}

/// The fields of a layer stand where they are read.
proof fn layer_fields_stand(data: Seq<u8>, p: int, name: Seq<char>, l: LayerModel)
    requires
        0 <= p,
        p + layer_bytes(name, l).len() <= data.len(),
        data.subrange(p, p + layer_bytes(name, l).len()) == layer_bytes(name, l),
    ensures
        ({
            let q = p + 4 + encode_utf8(name).len();
            let body = q + 12;
            &&& le32(data, p) == encode_utf8(name).len() as u32
            &&& data.subrange(p + 4, q) == encode_utf8(name)
            &&& le32(data, q) == l.in_features as u32
            &&& le32(data, q + 4) == l.out_features as u32
            &&& le32(data, q + 8) == l.rank as u32
            &&& words_at(data, body, l.a.len()) == l.a
            &&& words_at(data, body + 4 * l.a.len(), l.b.len()) == l.b
            &&& p + layer_bytes(name, l).len() == body + 4 * l.a.len() + 4 * l.b.len()
        }),
{
    broadcast use crate::le_bytes::le32_bytes_len;

    let raw = encode_utf8(name);
    let len = le32_bytes(raw.len() as u32);
    let inf = le32_bytes(l.in_features as u32);
    let outf = le32_bytes(l.out_features as u32);
    let rank = le32_bytes(l.rank as u32);
    let b = layer_bytes(name, l);
    words_len(l.a);
    words_len(l.b);
    let before = data.take(p);
    let after = data.skip((p + b.len()) as int);
    assert(data =~= before + data.subrange(p, (p + b.len()) as int) + after);
    let wa = words(l.a);
    let wb = words(l.b);
    let end6 = wb + after;
    let end5 = wa + end6;
    let end4 = rank + end5;
    let end3 = outf + end4;
    let end2 = inf + end3;
    let end1 = raw + end2;
    let s1 = before + len;
    let s2 = s1 + raw;
    let s3 = s2 + inf;
    let s4 = s3 + outf;
    let s5 = s4 + rank;
    let s6 = s5 + wa;
    same_bytes_in_parts(before, len, raw, inf, outf, rank, wa, wb, after);
    le32_between(before, raw.len() as u32, end1);
    assert((s1 + raw + end2).subrange(p + 4, p + 4 + raw.len()) =~= raw);
    le32_between(s2, l.in_features as u32, end3);
    le32_between(s3, l.out_features as u32, end4);
    le32_between(s4, l.rank as u32, end5);
    words_between(s5, l.a, end6);
    words_between(s6, l.b, after);
}

proof fn parse_layer_reads_back(data: Seq<u8>, p: int, name: Seq<char>, l: LayerModel)
    requires
        0 <= p,
        l.fits(),
        encode_utf8(name).len() <= u32::MAX,
        p + layer_bytes(name, l).len() <= data.len(),
        data.subrange(p, p + layer_bytes(name, l).len()) == layer_bytes(name, l),
    ensures
        parse_layer(data, p, l.alpha) == Ok::<(Seq<char>, LayerModel, int), Seq<char>>(
            (name, l, p + layer_bytes(name, l).len()),
        ),
{
    layer_fields_stand(data, p, name, l);
    vstd::utf8::encode_utf8_valid_utf8(name);
    vstd::utf8::encode_utf8_decode_utf8(name);
    let q = p + 4 + encode_utf8(name).len();
    let body = q + 12;
    let end = body + 4 * l.a.len() + 4 * l.b.len();
    assert(end == body + (l.in_features * l.rank + l.rank * l.out_features) * 4);
}

proof fn parse_layers_reads_back(
    data: Seq<u8>,
    p: int,
    list: Seq<(Seq<char>, LayerModel)>,
    alpha: u32,
    layers: Map<Seq<char>, LayerModel>,
)
    requires
        0 <= p <= data.len(),
        data.subrange(p, data.len() as int) == layers_bytes(list),
        forall|i: int|
            0 <= i < list.len() ==> {
                &&& (#[trigger] list[i]).1.fits()
                &&& list[i].1.alpha == alpha
                &&& encode_utf8(list[i].0).len() <= u32::MAX
            },
    ensures
        parse_layers(data, p, list.len(), alpha, layers) == Ok::<
            Map<Seq<char>, LayerModel>,
            Seq<char>,
        >(inserted(layers, list)),
    decreases list.len(),
{
    if list.len() > 0 {
        let first = list[0];
        let fb = layer_bytes(first.0, first.1);
        let tail = data.subrange(p, data.len() as int);
        let q = p + fb.len();
        assert(tail.len() == fb.len() + layers_bytes(list.skip(1)).len());
        assert(data.subrange(p, q) =~= fb) by {
            assert(tail.subrange(0, fb.len() as int) =~= fb);
            assert(data.subrange(p, q) =~= tail.subrange(0, fb.len() as int));
        }
        assert(data.subrange(q, data.len() as int) =~= layers_bytes(list.skip(1))) by {
            assert(tail.subrange(fb.len() as int, tail.len() as int) =~= layers_bytes(
                list.skip(1),
            ));
            assert(data.subrange(q, data.len() as int) =~= tail.subrange(
                fb.len() as int,
                tail.len() as int,
            ));
        }
        parse_layer_reads_back(data, p, first.0, first.1);
        assert forall|i: int| 0 <= i < list.skip(1).len() implies {
            &&& (#[trigger] list.skip(1)[i]).1.fits()
            &&& list.skip(1)[i].1.alpha == alpha
            &&& encode_utf8(list.skip(1)[i].0).len() <= u32::MAX
        } by {
            assert(list.skip(1)[i] == list[i + 1]);
        }
        parse_layers_reads_back(
            data,
            q,
            list.skip(1),
            alpha,
            layers.insert(first.0, first.1),
        );
        inserted_first(layers, list);
    }
}

// ─── The adaptive block length ───────────────────────────────────────────────

/// The acceptance average of a fresh scheduler: 0.8.
pub const EMA_START: u32 = 0x3f4c_cccd;

/// Below this acceptance average the block shrinks: 0.3.
pub const THRESHOLD_LOW: u32 = 0x3e99_999a;

/// Above this acceptance average the block grows: 0.7.
pub const THRESHOLD_HIGH: u32 = 0x3f33_3333;

/// Adapts the length of speculative blocks to the average share of drafts that
/// is accepted. The average itself is computed by the caller and kept here as a
/// bit pattern.
pub struct KDynamicScheduler {
    pub k_current: usize,
    pub k_min: usize,
    pub k_max: usize,
    pub acceptance_ema: u32,
}

/// The block length after a round that leaves the acceptance average at `ema`:
/// half of it where few drafts are accepted, one more where most are, always
/// within the bounds.
pub open spec fn next_k(k: int, k_min: int, k_max: int, ema: u32) -> int {
    if float_lt(ema, THRESHOLD_LOW) && k > k_min {
        if k / 2 < k_min {
            k_min
        } else {
            k / 2
        }
    } else if float_lt(THRESHOLD_HIGH, ema) && k < k_max {
        k + 1
    } else {
        k
    }
}

/// The block length after rounds that leave the acceptance average at the given
/// values.
pub open spec fn k_after(k: int, k_min: int, k_max: int, emas: Seq<u32>) -> int
    decreases emas.len(),
{
    if emas.len() == 0 {
        k
    } else {
        next_k(k_after(k, k_min, k_max, emas.drop_last()), k_min, k_max, emas.last())
    }
}

/// Whatever is accepted, the block length stays within its bounds and is never
/// zero.
pub proof fn k_stays_within_bounds(k: int, k_min: int, k_max: int, emas: Seq<u32>)
    requires
        1 <= k_min <= k <= k_max,
    ensures
        1 <= k_min <= k_after(k, k_min, k_max, emas) <= k_max,
    decreases emas.len(),
{
    if emas.len() > 0 {
        k_stays_within_bounds(k, k_min, k_max, emas.drop_last());
    }
}

/// Where acceptance stays low, the block length comes down to its lower bound.
pub proof fn low_acceptance_leads_to_the_minimum(
    k: int,
    k_min: int,
    k_max: int,
    emas: Seq<u32>,
)
    requires
        1 <= k_min <= k <= k_max,
        forall|i: int| 0 <= i < emas.len() ==> float_lt(#[trigger] emas[i], THRESHOLD_LOW),
        emas.len() >= k - k_min,
    ensures
        k_after(k, k_min, k_max, emas) == k_min,
{
    k_comes_down(k, k_min, k_max, emas);
}

proof fn k_comes_down(k: int, k_min: int, k_max: int, emas: Seq<u32>)
    requires
        1 <= k_min <= k <= k_max,
        forall|i: int| 0 <= i < emas.len() ==> float_lt(#[trigger] emas[i], THRESHOLD_LOW),
    ensures
        k_min <= k_after(k, k_min, k_max, emas) <= k_max,
        k_after(k, k_min, k_max, emas) == k_min || k_after(k, k_min, k_max, emas) <= k - emas.len(),
    decreases emas.len(),
{
    if emas.len() > 0 {
        let before = emas.drop_last();
        assert forall|i: int| 0 <= i < before.len() implies float_lt(
            #[trigger] before[i],
            THRESHOLD_LOW,
        ) by {
            assert(before[i] == emas[i]);
        }
        k_comes_down(k, k_min, k_max, before);
        low_is_not_high(emas.last());
    }
}

/// An average is not low and high at once.
proof fn low_is_not_high(ema: u32)
    requires
        float_lt(ema, THRESHOLD_LOW),
    ensures
        !float_lt(THRESHOLD_HIGH, ema),
{
}

/// Where acceptance stays high, the block length recovers to its upper bound.
pub proof fn high_acceptance_leads_to_the_maximum(
    k: int,
    k_min: int,
    k_max: int,
    emas: Seq<u32>,
)
    requires
        1 <= k_min <= k <= k_max,
        forall|i: int| 0 <= i < emas.len() ==> float_lt(THRESHOLD_HIGH, #[trigger] emas[i]),
        emas.len() >= k_max - k,
    ensures
        k_after(k, k_min, k_max, emas) == k_max,
{
    k_goes_up(k, k_min, k_max, emas);
}

proof fn k_goes_up(k: int, k_min: int, k_max: int, emas: Seq<u32>)
    requires
        1 <= k_min <= k <= k_max,
        forall|i: int| 0 <= i < emas.len() ==> float_lt(THRESHOLD_HIGH, #[trigger] emas[i]),
    ensures
        k_after(k, k_min, k_max, emas) == if k + emas.len() <= k_max {
            k + emas.len()
        } else {
            k_max
        },
    decreases emas.len(),
{
    if emas.len() > 0 {
        let before = emas.drop_last();
        assert forall|i: int| 0 <= i < before.len() implies float_lt(
            THRESHOLD_HIGH,
            #[trigger] before[i],
        ) by {
            assert(before[i] == emas[i]);
        }
        k_goes_up(k, k_min, k_max, before);
        if float_lt(emas.last(), THRESHOLD_LOW) {
            low_is_not_high(emas.last());
        }
    }
}

impl KDynamicScheduler {
    /// The block length stays between its bounds, and is never zero.
    pub open spec fn wf(&self) -> bool {
        1 <= self.k_min <= self.k_current <= self.k_max
    }

    /// A scheduler that starts at `k_initial`, brought between the bounds. A
    /// lower bound of zero counts as one; where the bounds are crossed, the
    /// upper one wins.
    pub fn new(k_initial: usize, k_min: usize, k_max: usize) -> (s: KDynamicScheduler)
        ensures
            s.k_min == if k_min == 0 {
                1
            } else {
                k_min
            },
            s.k_max == k_max,
            s.acceptance_ema == EMA_START,
            s.k_current == if k_max <= s.k_min || k_max <= k_initial {
                k_max
            } else if k_initial <= s.k_min {
                s.k_min
            } else {
                k_initial
            },
            s.k_min <= k_max ==> s.wf(),
    {
        let low: usize = if k_min == 0 {
            1
        } else {
            k_min
        };
        let raised: usize = if k_initial < low {
            low
        } else {
            k_initial
        };
        let k_current: usize = if raised > k_max {
            k_max
        } else {
            raised
        };
        KDynamicScheduler { k_current, k_min: low, k_max, acceptance_ema: EMA_START }
    }

    /// Takes in a round in which `total` tokens were drafted, after which the
    /// acceptance average is `ema`. Returns the new block length: half of it,
    /// but at least the lower bound, where few drafts are accepted; one more,
    /// but at most the upper bound, where most are.
    pub fn step(&mut self, total: usize, ema: u32) -> (k: usize)
        ensures
            final(self).k_min == old(self).k_min,
            final(self).k_max == old(self).k_max,
            k == final(self).k_current,
            total == 0 ==> *final(self) == *old(self),
            total != 0 ==> final(self).acceptance_ema == ema && k == next_k(
                old(self).k_current as int,
                old(self).k_min as int,
                old(self).k_max as int,
                ema,
            ),
            old(self).wf() ==> final(self).wf(),
    {
        if total == 0 {
            return self.k_current;
        }
        self.acceptance_ema = ema;
        if check_lt(ema, THRESHOLD_LOW) && self.k_current > self.k_min {
            let half: usize = self.k_current / 2;
            self.k_current = if half < self.k_min {
                self.k_min
            } else {
                half
            };
        } else if check_lt(THRESHOLD_HIGH, ema) && self.k_current < self.k_max {
            self.k_current = self.k_current + 1;
        }
        self.k_current
    }

    /// The block length.
    pub fn k(&self) -> (k: usize)
        ensures
            k == self.k_current,
    {
        self.k_current
    }
}

// ─── The format ──────────────────────────────────────────────────────────────

/// The word at `p` of a file.
pub open spec fn word_in(file: Seq<u8>, p: int) -> int {
    number_of_bytes(file[p], file[p + 1], file[p + 2], file[p + 3])
}

/// A file begins with six words: the mark of the format, its version, the width of the
/// model, the rank, the scale and the number of layers.
pub proof fn files_begin_with_a_header(b: LoraBank)
    requires
        b.writable(),
    ensures
        ({
            let file = b.file_bytes();
            &&& file.len() >= 24
            &&& word_in(file, 0) == 0x4C4F5241
            &&& word_in(file, 4) == 1
            &&& word_in(file, 8) == b.hidden_dim
            &&& word_in(file, 12) == b.rank
            &&& word_in(file, 16) == b.alpha
            &&& word_in(file, 20) == b.layers.entries@.len()
        }),
{
    broadcast use crate::le_bytes::le32_bytes_len;

    let file = b.file_bytes();
    words_are_little_endian(LORA_MAGIC, file, 0);
    words_are_little_endian(LORA_VERSION, file, 0);
    words_are_little_endian(b.hidden_dim as u32, file, 0);
    words_are_little_endian(b.rank as u32, file, 0);
    words_are_little_endian(b.alpha, file, 0);
    words_are_little_endian(b.layers.entries@.len() as u32, file, 0);
    assert(file.subrange(0, 4) =~= le32_bytes(LORA_MAGIC));
    assert(file.subrange(4, 8) =~= le32_bytes(LORA_VERSION));
    assert(file.subrange(8, 12) =~= le32_bytes(b.hidden_dim as u32));
    assert(file.subrange(12, 16) =~= le32_bytes(b.rank as u32));
    assert(file.subrange(16, 20) =~= le32_bytes(b.alpha));
    assert(file.subrange(20, 24) =~= le32_bytes(b.layers.entries@.len() as u32));
    word_of_bytes(file, 0);
    word_of_bytes(file, 4);
    word_of_bytes(file, 8);
    word_of_bytes(file, 12);
    word_of_bytes(file, 16);
    word_of_bytes(file, 20);
}

proof fn word_of_bytes(file: Seq<u8>, p: int)
    requires
        0 <= p,
        p + 4 <= file.len(),
    ensures
        ({
            let b = file.subrange(p, p + 4);
            word_in(file, p) == number_of_bytes(b[0], b[1], b[2], b[3])
        }),
{
}

/// A layer is written as the length of its name, the name, the two widths, the rank, and
/// then every number of the first matrix and every number of the second.
pub proof fn layers_have_their_format(name: Seq<char>, l: LayerModel)
    requires
        l.fits(),
        encode_utf8(name).len() <= u32::MAX,
    ensures
        ({
            let file = layer_bytes(name, l);
            let n = encode_utf8(name).len() as int;
            let q = 4 + n;
            &&& file.len() == q + 12 + 4 * (l.a.len() + l.b.len())
            &&& word_in(file, 0) == n
            &&& file.subrange(4, q) == encode_utf8(name)
            &&& word_in(file, q) == l.in_features
            &&& word_in(file, q + 4) == l.out_features
            &&& word_in(file, q + 8) == l.rank
            &&& forall|i: int|
                0 <= i < l.a.len() ==> word_in(file, q + 12 + 4 * i) == #[trigger] l.a[i]
            &&& forall|i: int|
                0 <= i < l.b.len() ==> word_in(file, q + 12 + 4 * l.a.len() + 4 * i)
                    == #[trigger] l.b[i]
        }),
{
    broadcast use crate::le_bytes::le32_bytes_len;

    let file = layer_bytes(name, l);
    let raw = encode_utf8(name);
    let n = raw.len() as int;
    let q = 4 + n;
    words_len(l.a);
    words_len(l.b);
    assert(file.subrange(0, 4) =~= le32_bytes(n as u32));
    assert(file.subrange(4, q) =~= raw);
    assert(file.subrange(q, q + 4) =~= le32_bytes(l.in_features as u32));
    assert(file.subrange(q + 4, q + 8) =~= le32_bytes(l.out_features as u32));
    assert(file.subrange(q + 8, q + 12) =~= le32_bytes(l.rank as u32));
    words_are_little_endian(n as u32, file, 0);
    words_are_little_endian(l.in_features as u32, file, 0);
    words_are_little_endian(l.out_features as u32, file, 0);
    words_are_little_endian(l.rank as u32, file, 0);
    word_of_bytes(file, 0);
    word_of_bytes(file, q);
    word_of_bytes(file, q + 4);
    word_of_bytes(file, q + 8);
    assert forall|i: int| 0 <= i < l.a.len() implies word_in(file, q + 12 + 4 * i)
        == #[trigger] l.a[i] by {
        let p = q + 12 + 4 * i;
        words_stand_in_a_row(l.a, i);
        assert(file.subrange(p, p + 4) =~= words(l.a).subrange(4 * i, 4 * i + 4));
        words_are_little_endian(l.a[i], file, 0);
        word_of_bytes(file, p);
    }
    assert forall|i: int| 0 <= i < l.b.len() implies word_in(
        file,
        q + 12 + 4 * l.a.len() + 4 * i,
    ) == #[trigger] l.b[i] by {
        let p = q + 12 + 4 * l.a.len() + 4 * i;
        words_stand_in_a_row(l.b, i);
        assert(file.subrange(p, p + 4) =~= words(l.b).subrange(4 * i, 4 * i + 4));
        words_are_little_endian(l.b[i], file, 0);
        word_of_bytes(file, p);
    }
}

/// Behind the header the layers stand one after the other, in the order of the bank.
pub proof fn layers_stand_in_a_row(b: LoraBank, i: int)
    requires
        0 <= i < b.layers.entries@.len(),
    ensures
        ({
            let at = 24 + layers_bytes(b.listing().take(i)).len();
            let one = layer_bytes(b.listing()[i].0, b.listing()[i].1);
            &&& at + one.len() <= b.file_bytes().len()
            &&& b.file_bytes().subrange(at as int, (at + one.len()) as int) == one
            &&& 24 + layers_bytes(b.listing().take(i + 1)).len() == at + one.len()
            &&& i + 1 == b.layers.entries@.len() ==> at + one.len() == b.file_bytes().len()
        }),
{
    broadcast use crate::le_bytes::le32_bytes_len;

    let list = b.listing();
    layers_split(list, i);
    layers_split(list, i + 1);
    let head = header_bytes(
        b.hidden_dim as u32,
        b.rank as u32,
        b.alpha,
        b.layers.entries@.len() as u32,
    );
    let one = layer_bytes(list[i].0, list[i].1);
    let before = layers_bytes(list.take(i));
    assert(list.take(i + 1).skip(i) =~= seq![list[i]]);
    layers_split(list.take(i + 1), i);
    assert(list.take(i + 1).take(i) =~= list.take(i));
    let single = seq![list[i]];
    assert(layers_bytes(single.skip(1)) =~= Seq::<u8>::empty()) by {
        assert(single.skip(1).len() == 0);
    }
    assert(layers_bytes(single) =~= one);
    let at = 24 + before.len();
    assert(head.len() == 24);
    assert(layers_bytes(list) =~= before + one + layers_bytes(list.skip(i + 1)));
    assert(b.file_bytes().subrange(at as int, (at + one.len()) as int) =~= one);
    if i + 1 == list.len() {
        assert(list.skip(i + 1).len() == 0);
        assert(layers_bytes(list.skip(i + 1)) =~= Seq::<u8>::empty());
    }
}

proof fn layers_split(list: Seq<(Seq<char>, LayerModel)>, i: int)
    requires
        0 <= i <= list.len(),
    ensures
        layers_bytes(list) == layers_bytes(list.take(i)) + layers_bytes(list.skip(i)),
    decreases i,
{
    if i == 0 {
        assert(list.take(0).len() == 0);
        assert(list.skip(0) =~= list);
        assert(layers_bytes(list.take(0)) + layers_bytes(list) =~= layers_bytes(list));
    } else {
        let rest = list.skip(1);
        layers_split(rest, i - 1);
        assert(list.take(i).skip(1) =~= rest.take(i - 1));
        assert(list.skip(i) =~= rest.skip(i - 1));
        assert(list.take(i)[0] == list[0]);
        assert(layers_bytes(list) =~= layers_bytes(list.take(i)) + layers_bytes(list.skip(i)));
    }
}

/// The block length falls by half and rises by one: below the lower threshold it is
/// halved, but not below the least; above the upper one it grows by one, but not above
/// the most; in between it stays.
pub proof fn k_falls_by_half_and_rises_by_one(k: int, k_min: int, k_max: int, ema: u32)
    requires
        1 <= k_min <= k <= k_max,
    ensures
        float_lt(ema, THRESHOLD_LOW) ==> k_min <= next_k(k, k_min, k_max, ema) <= k && (next_k(
            k,
            k_min,
            k_max,
            ema,
        ) == k_min || k - 1 <= 2 * next_k(k, k_min, k_max, ema) <= k) && (k / 2 >= k_min
            ==> next_k(k, k_min, k_max, ema) == k / 2 || k == k_min),
        float_lt(THRESHOLD_HIGH, ema) ==> next_k(k, k_min, k_max, ema) == if k < k_max {
            k + 1
        } else {
            k
        },
        !float_lt(ema, THRESHOLD_LOW) && !float_lt(THRESHOLD_HIGH, ema) ==> next_k(
            k,
            k_min,
            k_max,
            ema,
        ) == k,
{
    assert(THRESHOLD_LOW < THRESHOLD_HIGH);
}

/// A file is read only where it has the mark and the version of the format and its whole
/// header; the bank then has what the header gives.
pub proof fn only_marked_files_are_read(data: Seq<u8>)
    ensures
        match parse_bank(data) {
            Ok(b) => {
                &&& data.len() >= 24
                &&& word_in(data, 0) == 0x4C4F5241
                &&& word_in(data, 4) == 1
                &&& b.hidden_dim == word_in(data, 8)
                &&& b.rank == word_in(data, 12)
                &&& b.alpha == word_in(data, 16)
                &&& word_in(data, 20) == 0 ==> b.layers == Map::<Seq<char>, LayerModel>::empty()
            },
            Err(_) => !(data.len() >= 24 && word_in(data, 0) == 0x4C4F5241 && word_in(data, 4) == 1
                && word_in(data, 20) == 0),
        },
{
    if data.len() >= 4 {
        words_are_little_endian(0, data, 0);
    }
    if data.len() >= 8 {
        words_are_little_endian(0, data, 4);
    }
    if data.len() >= 24 {
        words_are_little_endian(0, data, 8);
        words_are_little_endian(0, data, 12);
        words_are_little_endian(0, data, 16);
        words_are_little_endian(0, data, 20);
    }
}

/// A layer is read only where all of it is there: the name and its length, the sizes, and
/// as many numbers as the sizes ask for.
pub proof fn layers_are_read_whole(data: Seq<u8>, p: int, alpha: u32)
    requires
        0 <= p <= data.len(),
    ensures
        match parse_layer(data, p, alpha) {
            Ok((name, l, end)) => {
                let q = p + 4 + word_in(data, p);
                &&& p + 16 <= q + 12 <= end <= data.len()
                &&& l.in_features == word_in(data, q)
                &&& l.out_features == word_in(data, q + 4)
                &&& l.rank == word_in(data, q + 8)
                &&& l.alpha == alpha
                &&& l.a.len() == l.in_features * l.rank
                &&& l.b.len() == l.rank * l.out_features
                &&& end == q + 12 + 4 * (l.a.len() + l.b.len())
            },
            Err(_) => true,
        },
{
    if p + 4 <= data.len() {
        words_are_little_endian(0, data, p);
        let q = p + 4 + le32(data, p);
        if q + 12 <= data.len() {
            words_are_little_endian(0, data, q);
            words_are_little_endian(0, data, q + 4);
            words_are_little_endian(0, data, q + 8);
            let (i, o, r) = (
                le32(data, q) as nat,
                le32(data, q + 4) as nat,
                le32(data, q + 8) as nat,
            );
            assert(i * r >= 0 && r * o >= 0) by (nonlinear_arith);
        }
    }
}

} // verus!
