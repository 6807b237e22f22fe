//! Adapting compute pipelines to the hardware by specialization constants.
//!
//! Shader code is fixed. Only named constants change, and none ever leaves the
//! bounds that its template sets. Every change is logged.

use vstd::prelude::*;

use crate::clock::now;
use crate::float_bits::{check_ge, float_ge};
use crate::le_bytes::{le32_bytes, push_u32};
use crate::named_map::NamedMap;
use crate::text::{dec, push_dec, same};

pub use crate::virtual_vram::{
    MemoryTier, VirtualVram, VirtualVramStats, VramPage, VramPageError,
};

verus! {

// ─── Hardware ────────────────────────────────────────────────────────────────

#[derive(Debug, Clone, Copy, PartialEq, Eq, Structural)]
pub enum GpuVendor {
    Nvidia,
    Amd,
    Intel,
    Apple,
    Qualcomm,
    Unknown,
}

/// What is known of the graphics processor. The bandwidth is a bit pattern.
#[derive(Debug)]
pub struct GpuProfile {
    pub name: String,
    pub vendor: GpuVendor,
    pub vram_total_bytes: u64,
    pub vram_free_bytes: u64,
    pub memory_bandwidth_gbps: u32,
    pub compute_units: u32,
    pub max_workgroup_size_x: u32,
    pub max_workgroup_size_y: u32,
    pub max_shared_memory_bytes: u32,
    pub supports_subgroup_ops: bool,
    pub subgroup_size: u32,
}

impl Default for GpuProfile {
    /// A profile that suits every processor.
    fn default() -> (g: GpuProfile)
        ensures
            g.name@ == "Generic Vulkan GPU"@,
            g.vendor == GpuVendor::Unknown,
            g.vram_total_bytes == 4 * 1024 * 1024 * 1024,
            g.vram_free_bytes == 2 * 1024 * 1024 * 1024,
            g.memory_bandwidth_gbps == 0x42c8_0000,
            g.compute_units == 16,
            g.max_workgroup_size_x == 256,
            g.max_workgroup_size_y == 256,
            g.max_shared_memory_bytes == 32768,
            !g.supports_subgroup_ops,
            g.subgroup_size == 32,
    {
        GpuProfile {
            name: "Generic Vulkan GPU".to_string(),
            vendor: GpuVendor::Unknown,
            vram_total_bytes: 4 * 1024 * 1024 * 1024,
            vram_free_bytes: 2 * 1024 * 1024 * 1024,
            memory_bandwidth_gbps: 0x42c8_0000,
            compute_units: 16,
            max_workgroup_size_x: 256,
            max_workgroup_size_y: 256,
            max_shared_memory_bytes: 32768,
            supports_subgroup_ops: false,
            subgroup_size: 32,
        }
    }
}

// ─── Constants ───────────────────────────────────────────────────────────────

/// The value of a constant. A real value is a bit pattern.
#[derive(Debug, Clone, Copy, PartialEq, Eq, Structural)]
pub enum SpecValue {
    U32(u32),
    I32(i32),
    F32(u32),
}

impl SpecValue {
    /// The value as a word.
    pub open spec fn word(self) -> u32 {
        match self {
            SpecValue::U32(v) => v,
            SpecValue::I32(v) => v as u32,
            SpecValue::F32(v) => v,
        }
    }

    /// The value lies between two values of its own type.
    pub open spec fn within(self, min: SpecValue, max: SpecValue) -> bool {
        match (self, min, max) {
            (SpecValue::U32(v), SpecValue::U32(lo), SpecValue::U32(hi)) => lo <= v <= hi,
            (SpecValue::I32(v), SpecValue::I32(lo), SpecValue::I32(hi)) => lo <= v <= hi,
            (SpecValue::F32(v), SpecValue::F32(lo), SpecValue::F32(hi)) => float_ge(v, lo)
                && float_ge(hi, v),
            _ => false,
        }
    }

    /// The four bytes of the value, least significant first.
    pub fn to_bytes(&self) -> (r: Vec<u8>)
        ensures
            r@ == le32_bytes(self.word()),
    {
        let w: u32 = match self {
            SpecValue::U32(v) => *v,
            SpecValue::I32(v) => *v as u32,
            SpecValue::F32(v) => *v,
        };
        let mut r: Vec<u8> = Vec::new();
        push_u32(&mut r, w);
        assert(r@ =~= le32_bytes(self.word()));
        r
    }

    /// How many bytes the value takes.
    pub fn size(&self) -> (n: usize)
        ensures
            n == 4,
    {
        4
    }

    /// Whether the value lies between `min` and `max`. A value of another type
    /// than its bounds does not.
    pub fn is_within(&self, min: &SpecValue, max: &SpecValue) -> (b: bool)
        ensures
            b == self.within(*min, *max),
    {
        match (*self, *min, *max) {
            (SpecValue::U32(v), SpecValue::U32(lo), SpecValue::U32(hi)) => v >= lo && v <= hi,
            (SpecValue::I32(v), SpecValue::I32(lo), SpecValue::I32(hi)) => v >= lo && v <= hi,
            (SpecValue::F32(v), SpecValue::F32(lo), SpecValue::F32(hi)) => check_ge(v, lo)
                && check_ge(hi, v),
            _ => false,
        }
    }
}

/// A constant with its bounds.
#[derive(Debug)]
pub struct SpecConstant {
    pub constant_id: u32,
    pub name: String,
    pub value: SpecValue,
    pub min_value: SpecValue,
    pub max_value: SpecValue,
}

/// A constant as a mathematical value.
pub struct ConstantModel {
    pub id: u32,
    pub name: Seq<char>,
    pub value: SpecValue,
    pub min: SpecValue,
    pub max: SpecValue,
}

impl View for SpecConstant {
    type V = ConstantModel;

    open spec fn view(&self) -> ConstantModel {
        ConstantModel {
            id: self.constant_id,
            name: self.name@,
            value: self.value,
            min: self.min_value,
            max: self.max_value,
        }
    }
}

impl ConstantModel {
    /// The constant keeps its bounds.
    pub open spec fn in_bounds(self) -> bool {
        self.value.within(self.min, self.max)
    }
}

/// Why a change was refused.
#[derive(Debug)]
pub enum SpecValidationError {
    /// The value is outside the bounds.
    OutOfBounds { name: String, value: SpecValue, min: SpecValue, max: SpecValue },
    /// The constants do not go together.
    InvalidCombination { reason: String },
    /// The template is locked.
    LockedConstant { name: String },
}

impl SpecValidationError {
    /// The error says that `value` is outside the bounds of `c`.
    pub open spec fn refuses(&self, c: ConstantModel, value: SpecValue) -> bool {
        self matches SpecValidationError::OutOfBounds { name, value: v, min, max } && name@
            == c.name && v == value && min == c.min && max == c.max
    }

    /// The error as text. The values of an out-of-bounds error are given as
    /// texts.
    pub fn message(&self, value: &str, min: &str, max: &str) -> (s: String)
        ensures
            s@ == match self {
                SpecValidationError::OutOfBounds { name, .. } => "SECURITY: Constant '"@ + name@
                    + "' value "@ + value@ + " is outside safe bounds ["@ + min@ + ", "@ + max@
                    + "]"@,
                SpecValidationError::InvalidCombination {
                    reason,
                } => "SECURITY: Invalid constant combination: "@ + reason@,
                SpecValidationError::LockedConstant {
                    name,
                } => "SECURITY: Attempt to mutate locked constant '"@ + name@ + "'"@,
            },
    {
        match self {
            SpecValidationError::OutOfBounds { name, .. } => {
                let mut s = "SECURITY: Constant '".to_string();
                s.append(name.as_str());
                s.append("' value ");
                s.append(value);
                s.append(" is outside safe bounds [");
                s.append(min);
                s.append(", ");
                s.append(max);
                s.append("]");
                s
            },
            SpecValidationError::InvalidCombination { reason } => {
                let mut s = "SECURITY: Invalid constant combination: ".to_string();
                s.append(reason.as_str());
                s
            },
            SpecValidationError::LockedConstant { name } => {
                let mut s = "SECURITY: Attempt to mutate locked constant '".to_string();
                s.append(name.as_str());
                s.append("'");
                s
            },
        }
    }
}

impl SpecConstant {
    fn make(constant_id: u32, name: &str, value: u32, min: u32, max: u32) -> (c: SpecConstant)
        ensures
            c@ == u32_constant(constant_id, name@, value, min, max),
    {
        SpecConstant {
            constant_id,
            name: name.to_string(),
            value: SpecValue::U32(value),
            min_value: SpecValue::U32(min),
            max_value: SpecValue::U32(max),
        }
    }

    /// Whether the constant keeps its bounds.
    pub fn validate(&self) -> (r: Result<(), SpecValidationError>)
        ensures
            match r {
                Ok(_) => self@.in_bounds(),
                Err(e) => !self@.in_bounds() && e.refuses(self@, self.value),
            },
    {
        if !self.value.is_within(&self.min_value, &self.max_value) {
            return Err(
                SpecValidationError::OutOfBounds {
                    name: self.name.clone(),
                    value: self.value,
                    min: self.min_value,
                    max: self.max_value,
                },
            );
        }
        Ok(())
    }
}

/// A constant of unsigned words.
pub open spec fn u32_constant(id: u32, name: Seq<char>, value: u32, min: u32, max: u32) -> ConstantModel {
    ConstantModel {
        id,
        name,
        value: SpecValue::U32(value),
        min: SpecValue::U32(min),
        max: SpecValue::U32(max),
    }
}

// ─── Templates ───────────────────────────────────────────────────────────────

/// Fixed shader code and its constants.
#[derive(Debug)]
pub struct ShaderTemplate {
    pub name: String,
    pub spirv_hash: [u8; 32],
    pub spirv_size: usize,
    pub spec_constants: Vec<SpecConstant>,
    /// Whether no constant may change.
    pub locked: bool,
}

impl ShaderTemplate {
    /// The constants.
    pub open spec fn constants(&self) -> Seq<ConstantModel> {
        self.spec_constants@.map_values(|c: SpecConstant| c@)
    }

    /// All constants keep their bounds.
    pub open spec fn in_bounds(&self) -> bool {
        forall|i: int|
            0 <= i < self.spec_constants@.len() ==> (#[trigger] self.spec_constants@[i])@.in_bounds()
    }

    /// The template of vector search.
    pub fn hnsw_search_template() -> (t: ShaderTemplate)
        ensures
            t.name@ == "hnsw_vector_search"@,
            t.spirv_size == 0,
            !t.locked,
            t.in_bounds(),
            t.constants() == seq![
                u32_constant(0, "WORKGROUP_SIZE_X"@, 64, 32, 1024),
                u32_constant(1, "VECTOR_DIM"@, 128, 32, 4096),
                u32_constant(2, "MAX_CANDIDATES"@, 64, 8, 512),
                u32_constant(3, "USE_SHARED_MEMORY"@, 1, 0, 1),
            ],
    {
        let mut v: Vec<SpecConstant> = Vec::new();
        v.push(SpecConstant::make(0, "WORKGROUP_SIZE_X", 64, 32, 1024));
        v.push(SpecConstant::make(1, "VECTOR_DIM", 128, 32, 4096));
        v.push(SpecConstant::make(2, "MAX_CANDIDATES", 64, 8, 512));
        v.push(SpecConstant::make(3, "USE_SHARED_MEMORY", 1, 0, 1));
        let t = ShaderTemplate {
            name: "hnsw_vector_search".to_string(),
            spirv_hash: [0u8; 32],
            spirv_size: 0,
            spec_constants: v,
            locked: false,
        };
        assert(t.constants() =~= seq![
            u32_constant(0, "WORKGROUP_SIZE_X"@, 64, 32, 1024),
            u32_constant(1, "VECTOR_DIM"@, 128, 32, 4096),
            u32_constant(2, "MAX_CANDIDATES"@, 64, 8, 512),
            u32_constant(3, "USE_SHARED_MEMORY"@, 1, 0, 1),
        ]);
        t
    }

    /// The template of draft verification.
    pub fn draft_verify_template() -> (t: ShaderTemplate)
        ensures
            t.name@ == "draft_token_verify"@,
            t.spirv_size == 0,
            !t.locked,
            t.in_bounds(),
            t.constants() == seq![
                u32_constant(0, "BATCH_SIZE"@, 16, 1, 128),
                u32_constant(1, "MAX_DRAFT_TOKENS"@, 20, 4, 64),
                u32_constant(2, "PRECISION_MODE"@, 0, 0, 2),
            ],
    {
        let mut v: Vec<SpecConstant> = Vec::new();
        v.push(SpecConstant::make(0, "BATCH_SIZE", 16, 1, 128));
        v.push(SpecConstant::make(1, "MAX_DRAFT_TOKENS", 20, 4, 64));
        v.push(SpecConstant::make(2, "PRECISION_MODE", 0, 0, 2));
        let t = ShaderTemplate {
            name: "draft_token_verify".to_string(),
            spirv_hash: [0u8; 32],
            spirv_size: 0,
            spec_constants: v,
            locked: false,
        };
        assert(t.constants() =~= seq![
            u32_constant(0, "BATCH_SIZE"@, 16, 1, 128),
            u32_constant(1, "MAX_DRAFT_TOKENS"@, 20, 4, 64),
            u32_constant(2, "PRECISION_MODE"@, 0, 0, 2),
        ]);
        t
    }
}

/// Where a constant stands in the data handed to the driver.
#[derive(Debug, Clone, Copy)]
pub struct SpecMapEntry {
    pub constant_id: u32,
    pub offset: u32,
    pub size: u32,
}

/// One change, for the log.
#[derive(Debug)]
pub struct MutationRecord {
    pub timestamp: std::time::SystemTime,
    pub shader_name: String,
    pub constant_name: String,
    pub old_value: SpecValue,
    pub new_value: SpecValue,
    pub reason: String,
    pub state_hash: u64,
}

/// One change without its time.
pub struct RecordModel {
    pub shader: Seq<char>,
    pub constant: Seq<char>,
    pub old_value: SpecValue,
    pub new_value: SpecValue,
    pub reason: Seq<char>,
    pub state_hash: u64,
}

impl View for MutationRecord {
    type V = RecordModel;

    open spec fn view(&self) -> RecordModel {
        RecordModel {
            shader: self.shader_name@,
            constant: self.constant_name@,
            old_value: self.old_value,
            new_value: self.new_value,
            reason: self.reason@,
            state_hash: self.state_hash,
        }
    }
}

#[derive(Debug, Clone, Copy)]
pub struct AdaptiveStats {
    pub mutations_applied: u64,
    pub mutations_rejected: u64,
    pub pipelines_created: u64,
}

impl Default for AdaptiveStats {
    fn default() -> (s: AdaptiveStats)
        ensures
            s.mutations_applied == 0,
            s.mutations_rejected == 0,
            s.pipelines_created == 0,
    {
        AdaptiveStats { mutations_applied: 0, mutations_rejected: 0, pipelines_created: 0 }
    }
}

// ─── Choosing values ─────────────────────────────────────────────────────────

/// The smaller of two words.
pub open spec fn min_word(a: u32, b: u32) -> u32 {
    if a <= b {
        a
    } else {
        b
    }
}

/// The workgroup width for a processor: a multiple of its subgroup width, but at
/// least 32.
pub open spec fn workgroup_for(gpu: GpuProfile) -> u32 {
    let optimal = min_word(gpu.subgroup_size, gpu.max_workgroup_size_x);
    let raised = if optimal < 32 {
        32
    } else {
        optimal as int
    };
    let aligned = raised / (gpu.subgroup_size as int) * gpu.subgroup_size;
    (if aligned < 32 {
        32
    } else {
        aligned
    }) as u32
}

/// The batch for a processor, by its compute units.
pub open spec fn batch_for(units: u32) -> u32 {
    if units >= 80 {
        64
    } else if units >= 40 {
        32
    } else if units >= 16 {
        16
    } else {
        8
    }
}

/// The precision for a processor: half where it is fast, single elsewhere.
pub open spec fn precision_for(gpu: GpuProfile) -> u32 {
    if (gpu.vendor == GpuVendor::Nvidia && gpu.compute_units >= 40) || (gpu.vendor
        == GpuVendor::Amd && gpu.compute_units >= 32) {
        0
    } else {
        1
    }
}

/// The best value of the constant `name` for a processor; none for a constant
/// that the processor does not decide.
pub open spec fn optimal(name: Seq<char>, gpu: GpuProfile) -> Option<SpecValue> {
    if name == "WORKGROUP_SIZE_X"@ {
        Some(SpecValue::U32(workgroup_for(gpu)))
    } else if name == "USE_SHARED_MEMORY"@ {
        Some(
            SpecValue::U32(
                if gpu.max_shared_memory_bytes >= 32768 {
                    1
                } else {
                    0
                },
            ),
        )
    } else if name == "BATCH_SIZE"@ {
        Some(SpecValue::U32(batch_for(gpu.compute_units)))
    } else if name == "PRECISION_MODE"@ {
        Some(SpecValue::U32(precision_for(gpu)))
    } else {
        None
    }
}

/// The state hash after constant `id` took `value`.
pub open spec fn chained(hash: u64, id: u32, value: SpecValue) -> u64 {
    hash.wrapping_mul(6364136223846793005).wrapping_add(id as u64).wrapping_add(
        match value {
            SpecValue::U32(v) => v as u64,
            SpecValue::I32(v) => v as u64,
            SpecValue::F32(v) => v as u64,
        },
    )
}

/// The index of the first constant `id`; their number where there is none.
pub open spec fn find_constant(constants: Seq<ConstantModel>, id: u32) -> int
    decreases constants.len(),
{
    if constants.len() == 0 || constants[0].id == id {
        0
    } else {
        1 + find_constant(constants.skip(1), id)
    }
}

/// The constants of a template, and what is counted and logged of changes.
pub struct Adaptation {
    pub constants: Seq<ConstantModel>,
    pub hash: u64,
    pub applied: int,
    pub rejected: int,
    pub log: Seq<RecordModel>,
    /// The changes that were refused: the constant, and the value it was to
    /// take.
    pub refused: Seq<(ConstantModel, SpecValue)>,
}

impl Adaptation {
    /// Constant `id` is to take `value`: it does where the value keeps the
    /// bounds.
    pub open spec fn mutated(self, id: u32, value: SpecValue) -> Adaptation {
        let i = find_constant(self.constants, id);
        let c = self.constants[i];
        if value.within(c.min, c.max) {
            Adaptation {
                constants: self.constants.update(i, ConstantModel { value, ..c }),
                hash: chained(self.hash, id, value),
                applied: self.applied + 1,
                ..self
            }
        } else {
            Adaptation {
                rejected: self.rejected + 1,
                refused: self.refused.push((c, value)),
                ..self
            }
        }
    }

    /// A change of constant `c` to `value` is logged.
    pub open spec fn logged(
        self,
        shader: Seq<char>,
        c: ConstantModel,
        value: SpecValue,
        reason: Seq<char>,
    ) -> Adaptation {
        Adaptation {
            log: self.log.push(
                RecordModel {
                    shader,
                    constant: c.name,
                    old_value: c.value,
                    new_value: value,
                    reason,
                    state_hash: self.hash,
                },
            ),
            ..self
        }
    }

    /// The first `n` of the constants `before` are adapted one after the other.
    pub open spec fn adapted(
        self,
        before: Seq<ConstantModel>,
        n: int,
        shader: Seq<char>,
        gpu: GpuProfile,
    ) -> Adaptation
        decreases n,
    {
        if n <= 0 {
            self
        } else {
            let a = self.adapted(before, n - 1, shader, gpu);
            let c = before[n - 1];
            match optimal(c.name, gpu) {
                None => a,
                Some(v) => {
                    let b = a.mutated(c.id, v);
                    if b.rejected == a.rejected {
                        b.logged(shader, c, v, reason_text(gpu))
                    } else {
                        b
                    }
                },
            }
        }
    }
}

/// The reason that is logged for a change.
pub open spec fn reason_text(gpu: GpuProfile) -> Seq<char> {
    "Adapted to "@ + gpu.name@ + " ("@ + dec(gpu.compute_units as nat) + " CUs, "@ + dec(
        gpu.subgroup_size as nat,
    ) + " subgroup)"@
}

fn make_reason(gpu: &GpuProfile) -> (s: String)
    ensures
        s@ == reason_text(*gpu),
{
    let mut s = "Adapted to ".to_string();
    s.append(gpu.name.as_str());
    s.append(" (");
    push_dec(&mut s, gpu.compute_units as u64);
    s.append(" CUs, ");
    push_dec(&mut s, gpu.subgroup_size as u64);
    s.append(" subgroup)");
    s
}

/// A constant of these has a value that the subgroup width decides.
pub open spec fn needs_subgroup(constants: Seq<ConstantModel>) -> bool {
    exists|i: int|
        0 <= i < constants.len() && (#[trigger] constants[i]).name == "WORKGROUP_SIZE_X"@
}

proof fn find_constant_is_first(constants: Seq<ConstantModel>, id: u32)
    ensures
        0 <= find_constant(constants, id) <= constants.len(),
        find_constant(constants, id) < constants.len() ==> constants[find_constant(
            constants,
            id,
        )].id == id,
        forall|i: int| 0 <= i < find_constant(constants, id) ==> (#[trigger] constants[i]).id != id,
    decreases constants.len(),
{
    if constants.len() > 0 && constants[0].id != id {
        let rest = constants.skip(1);
        find_constant_is_first(rest, id);
        assert forall|i: int| 0 <= i < find_constant(constants, id) implies (
        #[trigger] constants[i]).id != id by {
            if i > 0 {
                assert(constants[i] == rest[i - 1]);
            }
        }
    }
}

/// Adapting changes values only, and only within bounds.
pub proof fn adapting_keeps_bounds(
    a: Adaptation,
    before: Seq<ConstantModel>,
    n: int,
    shader: Seq<char>,
    gpu: GpuProfile,
)
    requires
        0 <= n <= before.len(),
        a.constants == before,
    ensures
        ({
            let b = a.adapted(before, n, shader, gpu);
            &&& b.constants.len() == before.len()
            &&& forall|i: int|
                0 <= i < before.len() ==> {
                    let c = #[trigger] b.constants[i];
                    &&& c.id == before[i].id
                    &&& c.name == before[i].name
                    &&& c.min == before[i].min
                    &&& c.max == before[i].max
                    &&& before[i].in_bounds() ==> c.in_bounds()
                }
            &&& b.applied + b.rejected <= a.applied + a.rejected + n
            &&& a.applied <= b.applied
            &&& a.rejected <= b.rejected
            &&& b.log.len() - a.log.len() == b.applied - a.applied
            &&& b.refused.len() - a.refused.len() == b.rejected - a.rejected
        }),
    decreases n,
{
    if n > 0 {
        adapting_keeps_bounds(a, before, n - 1, shader, gpu);
        let b = a.adapted(before, n - 1, shader, gpu);
        let c = before[n - 1];
        assert(b.constants[n - 1].id == c.id);
        find_constant_is_first(b.constants, c.id);
        let i = find_constant(b.constants, c.id);
        if i == b.constants.len() {
            assert(b.constants[n - 1].id != c.id);
        }
        let after = a.adapted(before, n, shader, gpu);
        assert forall|k: int| 0 <= k < before.len() implies {
            let x = #[trigger] after.constants[k];
            &&& x.id == before[k].id
            &&& x.name == before[k].name
            &&& x.min == before[k].min
            &&& x.max == before[k].max
            &&& before[k].in_bounds() ==> x.in_bounds()
        } by {
            assert(b.constants[k].id == before[k].id);
        }
    }
}

// ─── The pipeline ────────────────────────────────────────────────────────────

/// Templates adapted to one processor.
pub struct AdaptivePipeline {
    pub gpu_profile: GpuProfile,
    pub templates: NamedMap<ShaderTemplate>,
    pub mutation_log: Vec<MutationRecord>,
    pub last_state_hash: u64,
    pub stats: AdaptiveStats,
}

/// The log without times.
pub open spec fn log_views(log: Seq<MutationRecord>) -> Seq<RecordModel> {
    log.map_values(|r: MutationRecord| r@)
}

/// `errors` refuse the changes `refused`, one by one.
pub open spec fn errors_refuse(
    errors: Seq<SpecValidationError>,
    refused: Seq<(ConstantModel, SpecValue)>,
) -> bool {
    errors.len() == refused.len() && forall|i: int|
        0 <= i < errors.len() ==> (#[trigger] errors[i]).refuses(refused[i].0, refused[i].1)
}

impl AdaptivePipeline {
    pub open spec fn wf(&self) -> bool {
        self.templates.wf()
    }

    /// All constants of all templates keep their bounds.
    pub open spec fn in_bounds(&self) -> bool {
        forall|name: Seq<char>| #[trigger]
            self.templates@.contains_key(name) ==> self.templates@[name].in_bounds()
    }

    /// The constants of template `t`, with what is counted and logged.
    pub open spec fn adaptation(&self, t: ShaderTemplate) -> Adaptation {
        Adaptation {
            constants: t.constants(),
            hash: self.last_state_hash,
            applied: self.stats.mutations_applied as int,
            rejected: self.stats.mutations_rejected as int,
            log: log_views(self.mutation_log@),
            refused: Seq::empty(),
        }
    }

    /// The templates of vector search and draft verification, as they come.
    pub fn new(gpu_profile: GpuProfile) -> (p: AdaptivePipeline)
        ensures
            p.wf(),
            p.in_bounds(),
            p.gpu_profile == gpu_profile,
            p.templates.names() == seq!["hnsw_vector_search"@, "draft_token_verify"@],
            p.mutation_log@.len() == 0,
            p.last_state_hash == 0,
            p.stats.mutations_applied == 0,
            p.stats.mutations_rejected == 0,
            p.stats.pipelines_created == 0,
            p.templates@.contains_key("hnsw_vector_search"@),
            p.templates@["hnsw_vector_search"@].constants() == seq![
                u32_constant(0, "WORKGROUP_SIZE_X"@, 64, 32, 1024),
                u32_constant(1, "VECTOR_DIM"@, 128, 32, 4096),
                u32_constant(2, "MAX_CANDIDATES"@, 64, 8, 512),
                u32_constant(3, "USE_SHARED_MEMORY"@, 1, 0, 1),
            ],
            !p.templates@["hnsw_vector_search"@].locked,
            p.templates@.contains_key("draft_token_verify"@),
            p.templates@["draft_token_verify"@].constants() == seq![
                u32_constant(0, "BATCH_SIZE"@, 16, 1, 128),
                u32_constant(1, "MAX_DRAFT_TOKENS"@, 20, 4, 64),
                u32_constant(2, "PRECISION_MODE"@, 0, 0, 2),
            ],
            !p.templates@["draft_token_verify"@].locked,
    {
        let mut templates: NamedMap<ShaderTemplate> = NamedMap::new();
        assert(templates.names() =~= Seq::empty());
        templates.insert(
            "hnsw_vector_search".to_string(),
            ShaderTemplate::hnsw_search_template(),
        );
        templates.insert(
            "draft_token_verify".to_string(),
            ShaderTemplate::draft_verify_template(),
        );
        proof {
            reveal_strlit("hnsw_vector_search");
            reveal_strlit("draft_token_verify");
            assert("hnsw_vector_search"@[0] == 'h' && "draft_token_verify"@[0] == 'd');
            assert(templates.names() =~= seq!["hnsw_vector_search"@, "draft_token_verify"@]);
        }
        AdaptivePipeline {
            gpu_profile,
            templates,
            mutation_log: Vec::new(),
            last_state_hash: 0,
            stats: AdaptiveStats::default(),
        }
    }

    /// The best value of a constant for a processor.
    pub fn compute_optimal_value(&self, spec: &SpecConstant, gpu: &GpuProfile) -> (r: Option<
        SpecValue,
    >)
        requires
            spec.name@ == "WORKGROUP_SIZE_X"@ ==> gpu.subgroup_size > 0,
        ensures
            r == optimal(spec.name@, *gpu),
    {
        let name = spec.name.as_str();
        if same(name, "WORKGROUP_SIZE_X") {
            let smaller: u32 = if gpu.subgroup_size <= gpu.max_workgroup_size_x {
                gpu.subgroup_size
            } else {
                gpu.max_workgroup_size_x
            };
            let raised: u32 = if smaller < 32 {
                32
            } else {
                smaller
            };
            proof {
                vstd::arithmetic::div_mod::lemma_fundamental_div_mod(
                    raised as int,
                    gpu.subgroup_size as int,
                );
                vstd::arithmetic::div_mod::lemma_mod_bound(
                    raised as int,
                    gpu.subgroup_size as int,
                );
                vstd::arithmetic::mul::lemma_mul_is_commutative(
                    gpu.subgroup_size as int,
                    raised as int / gpu.subgroup_size as int,
                );
            }
            let aligned: u32 = (raised / gpu.subgroup_size) * gpu.subgroup_size;
            Some(
                SpecValue::U32(
                    if aligned < 32 {
                        32
                    } else {
                        aligned
                    },
                ),
            )
        } else if same(name, "USE_SHARED_MEMORY") {
            Some(
                SpecValue::U32(
                    if gpu.max_shared_memory_bytes >= 32768 {
                        1
                    } else {
                        0
                    },
                ),
            )
        } else if same(name, "BATCH_SIZE") {
            let batch: u32 = if gpu.compute_units >= 80 {
                64
            } else if gpu.compute_units >= 40 {
                32
            } else if gpu.compute_units >= 16 {
                16
            } else {
                8
            };
            Some(SpecValue::U32(batch))
        } else if same(name, "PRECISION_MODE") {
            let half: bool = match gpu.vendor {
                GpuVendor::Nvidia => gpu.compute_units >= 40,
                GpuVendor::Amd => gpu.compute_units >= 32,
                _ => false,
            };
            Some(
                SpecValue::U32(
                    if half {
                        0
                    } else {
                        1
                    },
                ),
            )
        } else {
            None
        }
    }

    /// Lets a constant take a value, where the value keeps the bounds.
    pub fn apply_mutation(&mut self, template_name: &str, constant_id: u32, new_value: SpecValue) -> (r:
        Result<(), SpecValidationError>)
        requires
            old(self).wf(),
            old(self).templates@.contains_key(template_name@),
            find_constant(old(self).templates@[template_name@].constants(), constant_id) < old(
                self,
            ).templates@[template_name@].constants().len(),
            old(self).stats.mutations_applied < u64::MAX,
            old(self).stats.mutations_rejected < u64::MAX,
        ensures
            final(self).wf(),
            final(self).templates.names() == old(self).templates.names(),
            final(self).gpu_profile == old(self).gpu_profile,
            final(self).mutation_log == old(self).mutation_log,
            final(self).stats.pipelines_created == old(self).stats.pipelines_created,
            final(self).templates@.contains_key(template_name@),
            ({
                let t0 = old(self).templates@[template_name@];
                let t1 = final(self).templates@[template_name@];
                let c = t0.constants()[find_constant(t0.constants(), constant_id)];
                let a = old(self).adaptation(t0).mutated(constant_id, new_value);
                &&& final(self).templates@ == old(self).templates@.insert(template_name@, t1)
                &&& t1.name == t0.name
                &&& t1.spirv_hash == t0.spirv_hash
                &&& t1.spirv_size == t0.spirv_size
                &&& t1.locked == t0.locked
                &&& t1.constants() == a.constants
                &&& final(self).last_state_hash == a.hash
                &&& final(self).stats.mutations_applied == a.applied
                &&& final(self).stats.mutations_rejected == a.rejected
                &&& match r {
                    Ok(_) => new_value.within(c.min, c.max),
                    Err(e) => !new_value.within(c.min, c.max) && e.refuses(c, new_value),
                }
            }),
            old(self).in_bounds() ==> final(self).in_bounds(),
    {
        let ghost before = *self;
        let ghost t0 = self.templates@[template_name@];
        let ghost cs = t0.constants();
        let template = match self.templates.get_mut(template_name) {
            Some(t) => t,
            None => {
                return Ok(());
            },
        };
        let mut i: usize = 0;
        assert(cs.skip(0) =~= cs);
        while i < template.spec_constants.len() && template.spec_constants[i].constant_id
            != constant_id
            invariant
                *template == t0,
                cs == t0.constants(),
                i <= cs.len(),
                find_constant(cs, constant_id) == i + find_constant(
                    cs.skip(i as int),
                    constant_id,
                ),
                find_constant(cs, constant_id) < cs.len(),
            decreases cs.len() - i,
        {
            assert(cs[i as int] == template.spec_constants@[i as int]@);
            assert(cs.skip(i as int).skip(1) =~= cs.skip(i + 1));
            i = i + 1;
        }
        proof {
            find_constant_is_first(cs, constant_id);
            assert(cs.skip(i as int).len() == 0 ==> find_constant(cs, constant_id) == i);
            assert(i < cs.len());
            assert(cs[i as int] == template.spec_constants@[i as int]@);
            assert(find_constant(cs, constant_id) == i);
        }
        if !new_value.is_within(
            &template.spec_constants[i].min_value,
            &template.spec_constants[i].max_value,
        ) {
            let e = SpecValidationError::OutOfBounds {
                name: template.spec_constants[i].name.clone(),
                value: new_value,
                min: template.spec_constants[i].min_value,
                max: template.spec_constants[i].max_value,
            };
            self.stats.mutations_rejected = self.stats.mutations_rejected + 1;
            assert(self.templates@ =~= before.templates@.insert(template_name@, t0));
            return Err(e);
        }
        template.spec_constants[i].value = new_value;
        let ghost t1 = *template;
        proof {
            assert(t1.constants() =~= cs.update(
                i as int,
                ConstantModel { value: new_value, ..cs[i as int] },
            ));
        }
        self.stats.mutations_applied = self.stats.mutations_applied + 1;
        let word: u64 = match new_value {
            SpecValue::U32(v) => v as u64,
            SpecValue::I32(v) => v as u64,
            SpecValue::F32(v) => v as u64,
        };
        self.last_state_hash = self.last_state_hash.wrapping_mul(
            6364136223846793005,
        ).wrapping_add(constant_id as u64).wrapping_add(word);
        proof {
            if before.in_bounds() {
                assert(before.templates@.contains_key(template_name@));
                assert(t0.in_bounds());
                assert forall|k: int| 0 <= k < t1.spec_constants@.len() implies (
                #[trigger] t1.spec_constants@[k])@.in_bounds() by {
                    assert(t1.constants()[k] == t1.spec_constants@[k]@);
                    assert(cs[k] == t0.spec_constants@[k]@);
                    assert(t0.spec_constants@[k]@.in_bounds());
                }
            }
        }
        Ok(())
    }

    /// The changes to a template can be counted.
    pub open spec fn can_count(&self, changes: nat) -> bool {
        self.stats.mutations_applied + changes <= u64::MAX && self.stats.mutations_rejected
            + changes <= u64::MAX
    }

    /// Adapts one template to a processor. Returns how many constants changed,
    /// or why changes were refused; changes that were not refused stay in force.
    pub fn adapt_template(&mut self, template_name: &str, gpu: &GpuProfile) -> (r: Result<
        usize,
        Vec<SpecValidationError>,
    >)
        requires
            old(self).wf(),
            old(self).templates@.contains_key(template_name@) ==> {
                let cs = old(self).templates@[template_name@].constants();
                &&& needs_subgroup(cs) ==> gpu.subgroup_size > 0
                &&& old(self).can_count(cs.len())
            },
        ensures
            final(self).wf(),
            final(self).templates.names() == old(self).templates.names(),
            final(self).gpu_profile == old(self).gpu_profile,
            final(self).stats.pipelines_created == old(self).stats.pipelines_created,
            old(self).in_bounds() ==> final(self).in_bounds(),
            ({
                let known = old(self).templates@.contains_key(template_name@);
                let t0 = old(self).templates@[template_name@];
                let t1 = final(self).templates@[template_name@];
                let cs = t0.constants();
                let a = old(self).adaptation(t0).adapted(
                    cs,
                    cs.len() as int,
                    template_name@,
                    *gpu,
                );
                if !known {
                    r == Ok::<usize, Vec<SpecValidationError>>(0) && *final(self) == *old(self)
                } else if t0.locked {
                    &&& *final(self) == *old(self)
                    &&& match r {
                        Ok(_) => false,
                        Err(e) => e@.len() == 1 && (e@[0] matches SpecValidationError::LockedConstant {
                            name,
                        } && name@ == template_name@),
                    }
                } else {
                    &&& final(self).templates@ == old(self).templates@.insert(template_name@, t1)
                    &&& t1.name == t0.name
                    &&& t1.spirv_hash == t0.spirv_hash
                    &&& t1.spirv_size == t0.spirv_size
                    &&& !t1.locked
                    &&& t1.constants() == a.constants
                    &&& final(self).last_state_hash == a.hash
                    &&& final(self).stats.mutations_applied == a.applied
                    &&& final(self).stats.mutations_rejected == a.rejected
                    &&& log_views(final(self).mutation_log@) == a.log
                    &&& match r {
                        Ok(n) => a.refused.len() == 0 && n == a.applied - old(
                            self,
                        ).stats.mutations_applied,
                        Err(e) => a.refused.len() > 0 && errors_refuse(e@, a.refused),
                    }
                }
            }),
    {
        let ghost start = *self;
        let ghost t0 = self.templates@[template_name@];
        let ghost cs = t0.constants();
        let ghost a0 = self.adaptation(t0);
        let mut planned: Vec<(u32, String, SpecValue, Option<SpecValue>)> = Vec::new();
        match self.templates.get(template_name) {
            None => {
                return Ok(0);
            },
            Some(t) => {
                if t.locked {
                    let mut v: Vec<SpecValidationError> = Vec::new();
                    v.push(
                        SpecValidationError::LockedConstant { name: template_name.to_string() },
                    );
                    return Err(v);
                }
                let mut k: usize = 0;
                while k < t.spec_constants.len()
                    invariant
                        *t == t0,
                        cs == t0.constants(),
                        k <= cs.len(),
                        needs_subgroup(cs) ==> gpu.subgroup_size > 0,
                        planned@.len() == k,
                        forall|j: int|
                            0 <= j < k ==> {
                                &&& (#[trigger] planned@[j]).0 == cs[j].id
                                &&& planned@[j].1@ == cs[j].name
                                &&& planned@[j].2 == cs[j].value
                                &&& planned@[j].3 == optimal(cs[j].name, *gpu)
                            },
                    decreases cs.len() - k,
                {
                    let c = &t.spec_constants[k];
                    assert(cs[k as int] == c@);
                    let v = self.compute_optimal_value(c, gpu);
                    planned.push((c.constant_id, c.name.clone(), c.value, v));
                    k = k + 1;
                }
            },
        }
        let mut errors: Vec<SpecValidationError> = Vec::new();
        let mut applied: usize = 0;
        let n: usize = planned.len();
        let mut k: usize = 0;
        assert(self.templates@ =~= start.templates@.insert(template_name@, t0));
        while k < n
            invariant
                k <= n == cs.len() == planned@.len(),
                start.wf(),
                start.templates@.contains_key(template_name@),
                t0 == start.templates@[template_name@],
                cs == t0.constants(),
                a0 == start.adaptation(t0),
                start.can_count(cs.len()),
                !t0.locked,
                forall|j: int|
                    0 <= j < n ==> {
                        &&& (#[trigger] planned@[j]).0 == cs[j].id
                        &&& planned@[j].1@ == cs[j].name
                        &&& planned@[j].2 == cs[j].value
                        &&& planned@[j].3 == optimal(cs[j].name, *gpu)
                    },
                self.wf(),
                self.templates.names() == start.templates.names(),
                self.gpu_profile == start.gpu_profile,
                self.stats.pipelines_created == start.stats.pipelines_created,
                start.in_bounds() ==> self.in_bounds(),
                self.templates@.contains_key(template_name@),
                self.templates@ == start.templates@.insert(
                    template_name@,
                    self.templates@[template_name@],
                ),
                self.templates@[template_name@].name == t0.name,
                self.templates@[template_name@].spirv_hash == t0.spirv_hash,
                self.templates@[template_name@].spirv_size == t0.spirv_size,
                !self.templates@[template_name@].locked,
                ({
                    let a = a0.adapted(cs, k as int, template_name@, *gpu);
                    &&& self.templates@[template_name@].constants() == a.constants
                    &&& self.last_state_hash == a.hash
                    &&& self.stats.mutations_applied == a.applied
                    &&& self.stats.mutations_rejected == a.rejected
                    &&& log_views(self.mutation_log@) == a.log
                    &&& errors_refuse(errors@, a.refused)
                    &&& applied == a.applied - start.stats.mutations_applied
                    &&& applied <= k
                }),
            decreases n - k,
        {
            let ghost a = a0.adapted(cs, k as int, template_name@, *gpu);
            let ghost before = *self;
            let id: u32 = planned[k].0;
            let old_value: SpecValue = planned[k].2;
            assert(planned@[k as int].0 == cs[k as int].id);
            match planned[k].3 {
                Some(v) => {
                    proof {
                        adapting_keeps_bounds(a0, cs, k as int, template_name@, *gpu);
                        assert(a.constants[k as int].id == id);
                        find_constant_is_first(a.constants, id);
                        if find_constant(a.constants, id) == a.constants.len() {
                            assert(a.constants[k as int].id != id);
                        }
                    }
                    match self.apply_mutation(template_name, id, v) {
                        Ok(_) => {
                            let record = MutationRecord {
                                timestamp: now(),
                                shader_name: template_name.to_string(),
                                constant_name: planned[k].1.clone(),
                                old_value,
                                new_value: v,
                                reason: make_reason(gpu),
                                state_hash: self.last_state_hash,
                            };
                            let ghost rec = record@;
                            self.mutation_log.push(record);
                            applied = applied + 1;
                            proof {
                                assert(log_views(self.mutation_log@) =~= log_views(
                                    before.mutation_log@,
                                ).push(rec));
                            }
                        },
                        Err(e) => {
                            let ghost e0 = errors@;
                            errors.push(e);
                            proof {
                                let b = a.mutated(id, v);
                                assert forall|i: int| 0 <= i < errors@.len() implies (
                                #[trigger] errors@[i]).refuses(
                                    b.refused[i].0,
                                    b.refused[i].1,
                                ) by {
                                    if i < e0.len() {
                                        assert(e0[i].refuses(a.refused[i].0, a.refused[i].1));
                                    }
                                }
                            }
                        },
                    }
                    proof {
                        let t1 = self.templates@[template_name@];
                        assert(self.templates@ =~= start.templates@.insert(template_name@, t1));
                    }
                },
                None => {},
            }
            k = k + 1;
        }
        if errors.len() == 0 {
            Ok(applied)
        } else {
            Err(errors)
        }
    }

    /// Adapts one template and adds what was refused to `errors`. Returns how many
    /// constants changed, or zero where something was refused.
    fn adapt_next(
        &mut self,
        name: &str,
        gpu: &GpuProfile,
        errors: &mut Vec<SpecValidationError>,
    ) -> (more: usize)
        requires
            old(self).wf(),
            old(self).templates@.contains_key(name@),
            needs_subgroup(old(self).templates@[name@].constants()) ==> gpu.subgroup_size > 0,
            old(self).can_count(old(self).templates@[name@].constants().len()),
        ensures
            final(self).wf(),
            final(self).templates.names() == old(self).templates.names(),
            final(self).gpu_profile == old(self).gpu_profile,
            old(self).in_bounds() ==> final(self).in_bounds(),
            final(self).templates@.contains_key(name@),
            final(self).templates@ == old(self).templates@.insert(
                name@,
                final(self).templates@[name@],
            ),
            same_shape(old(self).templates@[name@], final(self).templates@[name@]),
            final(self).stats.pipelines_created == old(self).stats.pipelines_created,
            more <= old(self).templates@[name@].constants().len(),
            final(self).stats.mutations_applied <= old(self).stats.mutations_applied + old(
                self,
            ).templates@[name@].constants().len(),
            final(self).stats.mutations_rejected <= old(self).stats.mutations_rejected + old(
                self,
            ).templates@[name@].constants().len(),
            ({
                let d = old(self).run().step(name@, *gpu);
                let n = old(errors)@.len();
                &&& final(self).run() == (Run { total: 0, problems: Seq::empty(), ..d })
                &&& more == d.total
                &&& final(errors)@.len() == n + d.problems.len()
                &&& forall|k: int| 0 <= k < n ==> #[trigger] final(errors)@[k] == old(errors)@[k]
                &&& forall|k: int|
                    0 <= k < d.problems.len() ==> reports_one(
                        #[trigger] final(errors)@[n + k],
                        d.problems[k],
                    )
            }),
    {
        let ghost t = self.templates@[name@];
        let ghost n = errors@.len();
        let ghost before = *self;
        let ghost a = self.adaptation(t).adapted(
            t.constants(),
            t.constants().len() as int,
            name@,
            *gpu,
        );
        let ghost d = self.run().step(name@, *gpu);
        proof {
            adapting_keeps_bounds(
                self.adaptation(t),
                t.constants(),
                t.constants().len() as int,
                name@,
                *gpu,
            );
        }
        let r = self.adapt_template(name, gpu);
        proof {
            let t1 = self.templates@[name@];
            if t.locked {
                assert(self.templates@ =~= before.templates@.insert(name@, t1));
            } else {
                assert forall|j: int| 0 <= j < t1.constants().len() implies (
                #[trigger] t1.constants()[j]).name == t.constants()[j].name by {
                    assert(a.constants[j].name == t.constants()[j].name);
                }
            }
            assert(self.run().templates =~= d.templates);
        }
        match r {
            Ok(c) => {
                proof {
                    assert(a.refused.len() == 0);
                    assert(d.problems =~= Seq::empty());
                }
                c
            },
            Err(e) => {
                let mut e = e;
                let ghost more = e@;
                errors.append(&mut e);
                proof {
                    assert forall|k: int| 0 <= k < d.problems.len() implies reports_one(
                        #[trigger] errors@[n + k],
                        d.problems[k],
                    ) by {
                        assert(errors@[n + k] == more[k]);
                        if !t.locked {
                            assert(more[k].refuses(a.refused[k].0, a.refused[k].1));
                        }
                    }
                }
                0
            },
        }
    }

    /// Adapts all templates to the processor, in their order. Returns how many
    /// constants changed, or why changes were refused.
    pub fn adapt_to_hardware(&mut self) -> (r: Result<usize, Vec<SpecValidationError>>)
        requires
            old(self).wf(),
            old(self).can_adapt_all(),
        ensures
            final(self).wf(),
            final(self).templates.names() == old(self).templates.names(),
            final(self).gpu_profile == old(self).gpu_profile,
            final(self).stats.pipelines_created == old(self).stats.pipelines_created,
            forall|k: int|
                0 <= k < old(self).templates.entries@.len() ==> same_shape(
                    (#[trigger] old(self).templates.entries@[k]).1,
                    final(self).templates@[old(self).templates.entries@[k].0@],
                ),
            old(self).in_bounds() ==> final(self).in_bounds(),
            ({
                let names = old(self).templates.names();
                let run = old(self).run().over(names, names.len() as int, old(self).gpu_profile);
                &&& final(self).run() == (Run { total: 0, problems: Seq::empty(), ..run })
                &&& match r {
                    Ok(n) => run.problems.len() == 0 && n == run.total,
                    Err(e) => run.problems.len() > 0 && reports(e@, run.problems),
                }
            }),
    {
        let gpu = copy_profile(&self.gpu_profile);
        let ghost start = *self;
        let ghost names = self.templates.names();
        let n: usize = self.templates.len();
        let mut total: usize = 0;
        let mut errors: Vec<SpecValidationError> = Vec::new();
        let mut i: usize = 0;
        proof {
            assert forall|k: int| 0 <= k < n implies same_shape(
                (#[trigger] start.templates.entries@[k]).1,
                self.templates@[names[k]],
            ) && self.templates@.contains_key(names[k]) by {
                self.templates.entry_in_view(k);
                assert(names[k] == self.templates.entries@[k].0@);
            }
        }
        while i < n
            invariant
                i <= n == names.len(),
                gpu == start.gpu_profile,
                start.wf(),
                start.can_adapt_all(),
                names == start.templates.names(),
                self.wf(),
                self.templates.names() == names,
                self.templates.entries@.len() == n,
                self.gpu_profile == start.gpu_profile,
                self.stats.pipelines_created == start.stats.pipelines_created,
                start.in_bounds() ==> self.in_bounds(),
                ({
                    let run = start.run().over(names, i as int, gpu);
                    &&& self.run() == (Run { total: 0, problems: Seq::empty(), ..run })
                    &&& total == run.total
                    &&& reports(errors@, run.problems)
                }),
                total + pending_constants(start.templates.entries@, i as int)
                    <= pending_constants(start.templates.entries@, 0),
                self.stats.mutations_applied + pending_constants(
                    start.templates.entries@,
                    i as int,
                ) <= u64::MAX,
                self.stats.mutations_rejected + pending_constants(
                    start.templates.entries@,
                    i as int,
                ) <= u64::MAX,
                forall|k: int|
                    0 <= k < n ==> same_shape(
                        (#[trigger] start.templates.entries@[k]).1,
                        self.templates@[names[k]],
                    ) && self.templates@.contains_key(names[k]),
            decreases n - i,
        {
            let ghost run = start.run().over(names, i as int, gpu);
            let ghost before = *self;
            let name = self.templates.entries[i].0.clone();
            let ghost e0 = errors@;
            let ghost t = self.templates@[name@];
            proof {
                assert(names[i as int] == name@);
                self.templates.entry_in_view(i as int);
                let e = start.templates.entries@[i as int];
                assert(same_shape(e.1, t));
                assert(start.needs(i as int));
                same_shape_needs(e.1, t);
            }
            let ghost d = (Run { total: 0, problems: Seq::empty(), ..run }).step(name@, gpu);
            let more: usize = self.adapt_next(name.as_str(), &gpu, &mut errors);
            proof {
                run.step_adds(name@, gpu);
                let next = run.step(name@, gpu);
                assert(next == start.run().over(names, i + 1, gpu));
                assert forall|k: int| 0 <= k < errors@.len() implies reports_one(
                    #[trigger] errors@[k],
                    next.problems[k],
                ) by {
                    if k < e0.len() {
                        assert(errors@[k] == e0[k]);
                        assert(reports_one(e0[k], run.problems[k]));
                    } else {
                        assert(reports_one(
                            errors@[e0.len() + (k - e0.len())],
                            d.problems[k - e0.len()],
                        ));
                    }
                }
                assert forall|k: int| 0 <= k < n implies same_shape(
                    (#[trigger] start.templates.entries@[k]).1,
                    self.templates@[names[k]],
                ) && self.templates@.contains_key(names[k]) by {
                    let e = start.templates.entries@[k];
                    assert(same_shape(e.1, before.templates@[names[k]]));
                    if names[k] == name@ {
                        same_shape_chain(e.1, t, self.templates@[name@]);
                    }
                }
                assert(self.templates.names().len() == self.templates.entries@.len());
            }
            total = total + more;
            i = i + 1;
        }
        proof {
            assert forall|k: int| 0 <= k < start.templates.entries@.len() implies same_shape(
                (#[trigger] start.templates.entries@[k]).1,
                self.templates@[start.templates.entries@[k].0@],
            ) by {
                assert(names[k] == start.templates.entries@[k].0@);
            }
        }
        if errors.len() == 0 {
            Ok(total)
        } else {
            Err(errors)
        }
    }

    /// The constants of a template as data for the driver: four bytes each, one
    /// after the other, with their places.
    pub fn serialize_spec_constants(&self, template_name: &str) -> (r: Option<
        (Vec<u8>, Vec<SpecMapEntry>),
    >)
        requires
            self.wf(),
            self.templates@.contains_key(template_name@) ==> 4
                * self.templates@[template_name@].constants().len() <= u32::MAX,
        ensures
            match r {
                None => !self.templates@.contains_key(template_name@),
                Some((data, entries)) => {
                    let cs = self.templates@[template_name@].constants();
                    &&& self.templates@.contains_key(template_name@)
                    &&& data@ == crate::le_bytes::words(cs.map_values(|c: ConstantModel| c.value.word()))
                    &&& entries@.len() == cs.len()
                    &&& forall|i: int|
                        0 <= i < entries@.len() ==> #[trigger] entries@[i] == (SpecMapEntry {
                            constant_id: cs[i].id,
                            offset: (4 * i) as u32,
                            size: 4,
                        })
                },
            },
    {
        let t = match self.templates.get(template_name) {
            Some(t) => t,
            None => {
                return None;
            },
        };
        let ghost cs = t.constants();
        let ghost all = cs.map_values(|c: ConstantModel| c.value.word());
        let mut data: Vec<u8> = Vec::new();
        let mut entries: Vec<SpecMapEntry> = Vec::new();
        let mut i: usize = 0;
        assert(all.skip(0) =~= all);
        assert(data@ + crate::le_bytes::words(all) =~= crate::le_bytes::words(all));
        while i < t.spec_constants.len()
            invariant
                cs == t.constants(),
                all == cs.map_values(|c: ConstantModel| c.value.word()),
                i <= cs.len(),
                4 * cs.len() <= u32::MAX,
                data@.len() == 4 * i,
                data@ + crate::le_bytes::words(all.skip(i as int)) == crate::le_bytes::words(all),
                entries@.len() == i,
                forall|k: int|
                    0 <= k < i ==> #[trigger] entries@[k] == (SpecMapEntry {
                        constant_id: cs[k].id,
                        offset: (4 * k) as u32,
                        size: 4,
                    }),
            decreases cs.len() - i,
        {
            broadcast use crate::le_bytes::le32_bytes_len;

            let c = &t.spec_constants[i];
            assert(cs[i as int] == c@);
            let offset: usize = data.len();
            let mut bytes = c.value.to_bytes();
            let ghost before = data@;
            let ghost word = le32_bytes(c.value.word());
            data.append(&mut bytes);
            proof {
                assert(all.skip(i as int)[0] == c.value.word());
                assert(all.skip(i as int).skip(1) =~= all.skip(i + 1));
                assert(data@ + crate::le_bytes::words(all.skip(i + 1)) =~= before
                    + crate::le_bytes::words(all.skip(i as int)));
            }
            entries.push(
                SpecMapEntry { constant_id: c.constant_id, offset: offset as u32, size: 4 },
            );
            i = i + 1;
        }
        assert(data@ =~= crate::le_bytes::words(all));
        Some((data, entries))
    }

    /// Whether all constants of all templates keep their bounds; else an error
    /// for each that does not.
    pub fn verify_all_templates(&self) -> (r: Result<(), Vec<SpecValidationError>>)
        ensures
            ({
                let bad = all_violations(
                    self.templates.entries@,
                    self.templates.entries@.len() as int,
                );
                match r {
                    Ok(_) => bad.len() == 0,
                    Err(e) => bad.len() > 0 && errors_refuse(e@, bad),
                }
            }),
    {
        let mut errors: Vec<SpecValidationError> = Vec::new();
        let ghost entries = self.templates.entries@;
        let mut i: usize = 0;
        while i < self.templates.entries.len()
            invariant
                i <= entries.len(),
                entries == self.templates.entries@,
                errors_refuse(errors@, all_violations(entries, i as int)),
            decreases entries.len() - i,
        {
            let t = &self.templates.entries[i].1;
            let ghost cs = t.constants();
            let ghost base = all_violations(entries, i as int);
            let mut k: usize = 0;
            assert(base + violations(cs, 0) =~= base);
            while k < t.spec_constants.len()
                invariant
                    cs == t.constants(),
                    k <= cs.len(),
                    errors_refuse(errors@, base + violations(cs, k as int)),
                decreases cs.len() - k,
            {
                assert(cs[k as int] == t.spec_constants@[k as int]@);
                let ghost before = base + violations(cs, k as int);
                let ghost e0 = errors@;
                match t.spec_constants[k].validate() {
                    Ok(_) => {},
                    Err(e) => {
                        errors.push(e);
                        proof {
                            let next = base + violations(cs, k + 1);
                            assert(next =~= before.push((cs[k as int], cs[k as int].value)));
                            assert forall|j: int| 0 <= j < errors@.len() implies (
                            #[trigger] errors@[j]).refuses(next[j].0, next[j].1) by {
                                if j < e0.len() {
                                    assert(e0[j].refuses(before[j].0, before[j].1));
                                }
                            }
                        }
                    },
                }
                k = k + 1;
            }
            i = i + 1;
        }
        if errors.len() == 0 {
            Ok(())
        } else {
            Err(errors)
        }
    }

    /// Template `i` can be adapted to the processor.
    pub open spec fn needs(&self, i: int) -> bool {
        needs_subgroup(self.templates.entries@[i].1.constants()) ==> self.gpu_profile.subgroup_size
            > 0
    }

    /// All templates can be adapted, and all changes counted.
    pub open spec fn can_adapt_all(&self) -> bool {
        let all = pending_constants(self.templates.entries@, 0);
        &&& all <= usize::MAX
        &&& self.can_count(all)
        &&& forall|i: int| 0 <= i < self.templates.entries@.len() ==> #[trigger] self.needs(i)
    }

    /// The templates, with what is counted and logged.
    pub open spec fn run(&self) -> Run {
        Run {
            templates: self.templates@.map_values(
                |t: ShaderTemplate| TemplateModel { constants: t.constants(), locked: t.locked },
            ),
            hash: self.last_state_hash,
            applied: self.stats.mutations_applied as int,
            rejected: self.stats.mutations_rejected as int,
            log: log_views(self.mutation_log@),
            total: 0,
            problems: Seq::empty(),
        }
    }
}

/// How many constants the templates from `i` on have.
pub open spec fn pending_constants(entries: Seq<(String, ShaderTemplate)>, i: int) -> nat
    decreases entries.len() - i,
{
    if i >= entries.len() || i < 0 {
        0
    } else {
        entries[i].1.constants().len() + pending_constants(entries, i + 1)
    }
}

/// Two templates are the same but for the values of their constants: they have the
/// same name, the same code, and constants of the same names.
pub open spec fn same_shape(a: ShaderTemplate, b: ShaderTemplate) -> bool {
    &&& a.name == b.name
    &&& a.spirv_hash == b.spirv_hash
    &&& a.spirv_size == b.spirv_size
    &&& a.locked == b.locked
    &&& a.constants().len() == b.constants().len()
    &&& forall|j: int|
        0 <= j < b.constants().len() ==> (#[trigger] b.constants()[j]).name
            == a.constants()[j].name
}

proof fn same_shape_needs(a: ShaderTemplate, b: ShaderTemplate)
    requires
        same_shape(a, b),
    ensures
        needs_subgroup(b.constants()) ==> needs_subgroup(a.constants()),
{
    if needs_subgroup(b.constants()) {
        let k = choose|k: int|
            0 <= k < b.constants().len() && (#[trigger] b.constants()[k]).name
                == "WORKGROUP_SIZE_X"@;
        assert(a.constants()[k].name == b.constants()[k].name);
    }
}

proof fn same_shape_chain(a: ShaderTemplate, b: ShaderTemplate, c: ShaderTemplate)
    requires
        same_shape(a, b),
        same_shape(b, c),
    ensures
        same_shape(a, c),
{
    assert forall|j: int| 0 <= j < c.constants().len() implies (#[trigger] c.constants()[j]).name
        == a.constants()[j].name by {
        assert(b.constants()[j].name == a.constants()[j].name);
    }
}

fn copy_profile(g: &GpuProfile) -> (r: GpuProfile)
    ensures
        r == *g,
{
    GpuProfile {
        name: g.name.clone(),
        vendor: g.vendor,
        vram_total_bytes: g.vram_total_bytes,
        vram_free_bytes: g.vram_free_bytes,
        memory_bandwidth_gbps: g.memory_bandwidth_gbps,
        compute_units: g.compute_units,
        max_workgroup_size_x: g.max_workgroup_size_x,
        max_workgroup_size_y: g.max_workgroup_size_y,
        max_shared_memory_bytes: g.max_shared_memory_bytes,
        supports_subgroup_ops: g.supports_subgroup_ops,
        subgroup_size: g.subgroup_size,
    }
}

/// A template as a mathematical value.
pub struct TemplateModel {
    pub constants: Seq<ConstantModel>,
    pub locked: bool,
}

/// Why a template was not adapted in full.
pub enum Problem {
    Refused(ConstantModel, SpecValue),
    Locked(Seq<char>),
}

/// Templates on the way to being adapted.
pub struct Run {
    pub templates: Map<Seq<char>, TemplateModel>,
    pub hash: u64,
    pub applied: int,
    pub rejected: int,
    pub log: Seq<RecordModel>,
    pub total: int,
    pub problems: Seq<Problem>,
}

impl Run {
    /// Template `name` is adapted. What a template that is not adapted in full
    /// changed does not count towards the total.
    pub open spec fn step(self, name: Seq<char>, gpu: GpuProfile) -> Run {
        let t = self.templates[name];
        if t.locked {
            Run { problems: self.problems.push(Problem::Locked(name)), ..self }
        } else {
            let a = (Adaptation {
                constants: t.constants,
                hash: self.hash,
                applied: self.applied,
                rejected: self.rejected,
                log: self.log,
                refused: Seq::empty(),
            }).adapted(t.constants, t.constants.len() as int, name, gpu);
            Run {
                templates: self.templates.insert(
                    name,
                    TemplateModel { constants: a.constants, locked: t.locked },
                ),
                hash: a.hash,
                applied: a.applied,
                rejected: a.rejected,
                log: a.log,
                total: if a.refused.len() == 0 {
                    self.total + (a.applied - self.applied)
                } else {
                    self.total
                },
                problems: self.problems + a.refused.map_values(
                    |x: (ConstantModel, SpecValue)| Problem::Refused(x.0, x.1),
                ),
            }
        }
    }

    /// A step adds to the total and to the problems what it adds to none.
    proof fn step_adds(self, name: Seq<char>, gpu: GpuProfile)
        ensures
            ({
                let d = (Run { total: 0, problems: Seq::empty(), ..self }).step(name, gpu);
                self.step(name, gpu) == (Run {
                    total: self.total + d.total,
                    problems: self.problems + d.problems,
                    ..d
                })
            }),
    {
        let d = (Run { total: 0, problems: Seq::empty(), ..self }).step(name, gpu);
        assert(self.step(name, gpu).problems =~= self.problems + d.problems);
    }

    /// The first `n` of the templates `names` are adapted.
    pub open spec fn over(self, names: Seq<Seq<char>>, n: int, gpu: GpuProfile) -> Run
        decreases n,
    {
        if n <= 0 {
            self
        } else {
            self.over(names, n - 1, gpu).step(names[n - 1], gpu)
        }
    }
}

/// The error says what the problem is.
pub open spec fn reports_one(e: SpecValidationError, p: Problem) -> bool {
    match p {
        Problem::Refused(c, v) => e.refuses(c, v),
        Problem::Locked(n) => e matches SpecValidationError::LockedConstant { name } && name@ == n,
    }
}

/// The errors say what the problems are, one by one.
pub open spec fn reports(errors: Seq<SpecValidationError>, problems: Seq<Problem>) -> bool {
    errors.len() == problems.len() && forall|i: int|
        0 <= i < errors.len() ==> reports_one(#[trigger] errors[i], problems[i])
}

/// Those of the first `n` constants that do not keep their bounds, with their
/// values.
pub open spec fn violations(cs: Seq<ConstantModel>, n: int) -> Seq<(ConstantModel, SpecValue)>
    decreases n,
{
    if n <= 0 {
        Seq::empty()
    } else if cs[n - 1].in_bounds() {
        violations(cs, n - 1)
    } else {
        violations(cs, n - 1).push((cs[n - 1], cs[n - 1].value))
    }
}

/// The constants of the first `n` templates that do not keep their bounds.
pub open spec fn all_violations(entries: Seq<(String, ShaderTemplate)>, n: int) -> Seq<
    (ConstantModel, SpecValue),
>
    decreases n,
{
    if n <= 0 {
        Seq::empty()
    } else {
        let cs = entries[n - 1].1.constants();
        all_violations(entries, n - 1) + violations(cs, cs.len() as int)
    }
}

// ─── What adapting does ──────────────────────────────────────────────────────

/// The workgroup of a device whose subgroups hold at least thirty-two and fit is one
/// subgroup; no workgroup is smaller than thirty-two.
pub proof fn workgroup_is_a_subgroup(gpu: GpuProfile)
    requires
        gpu.subgroup_size > 0,
    ensures
        workgroup_for(gpu) >= 32,
        32 <= gpu.subgroup_size <= gpu.max_workgroup_size_x ==> workgroup_for(gpu)
            == gpu.subgroup_size,
        gpu.subgroup_size < 32 ==> workgroup_for(gpu) == 32,
{
    let s = gpu.subgroup_size as int;
    if 32 <= s <= gpu.max_workgroup_size_x {
        assert(s / s * s == s) by (nonlinear_arith)
            requires
                s > 0,
        ;
    } else if s < 32 {
        assert(32int / s * s <= 32) by (nonlinear_arith)
            requires
                s > 0,
        ;
    } else {
        let w = gpu.max_workgroup_size_x as int;
        let raised = if w < 32 {
            32
        } else {
            w
        };
        assert(0 <= raised / s * s <= raised) by (nonlinear_arith)
            requires
                s > 0,
                raised >= 0,
        ;
    }
}

/// A device with more units works on a batch that is at least as large: eight at first,
/// and twice as many from sixteen, from forty and from eighty units on.
pub proof fn batches_grow_with_the_units(units: u32)
    ensures
        batch_for(units) == 8 * (if units >= 16 {
            2int
        } else {
            1
        }) * (if units >= 40 {
            2int
        } else {
            1
        }) * (if units >= 80 {
            2int
        } else {
            1
        }),
{
}

/// The chained hash tells two constants and two values apart.
pub proof fn chain_tells_changes_apart(hash: u64, a: u32, b: u32, v: u32, w: u32)
    ensures
        chained(hash, a, SpecValue::U32(v)) == chained(hash, b, SpecValue::U32(v)) ==> a == b,
        chained(hash, a, SpecValue::U32(v)) == chained(hash, a, SpecValue::U32(w)) ==> v == w,
{
}

/// The constant that is found is the first with the id.
pub proof fn first_of_an_id_is_found(constants: Seq<ConstantModel>, id: u32)
    ensures
        ({
            let i = find_constant(constants, id);
            &&& 0 <= i <= constants.len()
            &&& i < constants.len() ==> constants[i].id == id
            &&& forall|j: int| 0 <= j < i ==> (#[trigger] constants[j]).id != id
        }),
    decreases constants.len(),
{
    if constants.len() > 0 && constants[0].id != id {
        let rest = constants.skip(1);
        first_of_an_id_is_found(rest, id);
        let i = find_constant(constants, id);
        assert forall|j: int| 0 <= j < i implies (#[trigger] constants[j]).id != id by {
            if j > 0 {
                assert(rest[j - 1].id != id);
            }
        }
        if i < constants.len() {
            assert(rest[i - 1] == constants[i]);
        }
    }
}

/// The value that constant `c` has when a template was adapted: the best one for the
/// device where there is one and it is in bounds, and its own where not.
pub open spec fn settled(c: ConstantModel, gpu: GpuProfile) -> SpecValue {
    match optimal(c.name, gpu) {
        Some(v) => if v.within(c.min, c.max) {
            v
        } else {
            c.value
        },
        None => c.value,
    }
}

/// To adapt a template gives every constant the best value for the device, where that is
/// in its bounds, and changes nothing else.
pub proof fn adapting_sets_the_best_values(
    a: Adaptation,
    before: Seq<ConstantModel>,
    n: int,
    shader: Seq<char>,
    gpu: GpuProfile,
)
    requires
        0 <= n <= before.len(),
        a.constants == before,
        forall|i: int, j: int|
            0 <= i < j < before.len() ==> (#[trigger] before[i]).id != (#[trigger] before[j]).id,
    ensures
        ({
            let b = a.adapted(before, n, shader, gpu);
            &&& b.constants.len() == before.len()
            &&& forall|i: int|
                0 <= i < n ==> #[trigger] b.constants[i] == (ConstantModel {
                    value: settled(before[i], gpu),
                    ..before[i]
                })
            &&& forall|i: int| n <= i < before.len() ==> #[trigger] b.constants[i] == before[i]
        }),
    decreases n,
{
    if n > 0 {
        adapting_sets_the_best_values(a, before, n - 1, shader, gpu);
        let m = a.adapted(before, n - 1, shader, gpu);
        let c = before[n - 1];
        first_of_an_id_is_found(m.constants, c.id);
        let i = find_constant(m.constants, c.id);
        assert(m.constants[n - 1] == c);
        if i < n - 1 {
            assert(m.constants[i].id == before[i].id);
            assert(before[i].id != before[n - 1].id);
        }
        assert(i == n - 1);
        let b = a.adapted(before, n, shader, gpu);
        assert forall|k: int| 0 <= k < n implies #[trigger] b.constants[k] == (ConstantModel {
            value: settled(before[k], gpu),
            ..before[k]
        }) by {
            if k < n - 1 {
                assert(b.constants[k] == m.constants[k]);
            }
        }
        assert forall|k: int| n <= k < before.len() implies #[trigger] b.constants[k]
            == before[k] by {
            assert(b.constants[k] == m.constants[k]);
        }
    }
}

/// A locked template stays as it is, and so does the log; the lock is reported.
pub proof fn locked_templates_stay(r: Run, name: Seq<char>, gpu: GpuProfile)
    requires
        r.templates.contains_key(name),
    ensures
        r.templates[name].locked ==> r.step(name, gpu).templates == r.templates && r.step(
            name,
            gpu,
        ).log == r.log && r.step(name, gpu).hash == r.hash && r.step(name, gpu).problems
            == r.problems.push(Problem::Locked(name)),
        forall|other: Seq<char>|
            other != name ==> #[trigger] r.step(name, gpu).templates[other] == r.templates[other],
{
}

/// The violations of a template are those of its constants that are out of bounds.
pub proof fn violations_are_out_of_bounds(cs: Seq<ConstantModel>, n: int)
    requires
        0 <= n <= cs.len(),
    ensures
        violations(cs, n) == cs.take(n).filter(|c: ConstantModel| !c.in_bounds()).map_values(
            |c: ConstantModel| (c, c.value),
        ),
    decreases n,
{
    reveal(Seq::filter);
    let bad = |c: ConstantModel| !c.in_bounds();
    let pair = |c: ConstantModel| (c, c.value);
    if n > 0 {
        violations_are_out_of_bounds(cs, n - 1);
        assert(cs.take(n).drop_last() =~= cs.take(n - 1));
    }
    assert(violations(cs, n) =~= cs.take(n).filter(bad).map_values(pair));
}

/// Every change that is made is logged with the value before and the value after and with
/// the hash that it led to; a change that is refused leaves values, hash and log as they
/// are.
pub proof fn changes_are_logged(
    a: Adaptation,
    before: Seq<ConstantModel>,
    n: int,
    shader: Seq<char>,
    gpu: GpuProfile,
)
    requires
        0 < n <= before.len(),
    ensures
        ({
            let x = a.adapted(before, n - 1, shader, gpu);
            let y = a.adapted(before, n, shader, gpu);
            let c = before[n - 1];
            match optimal(c.name, gpu) {
                None => y == x,
                Some(v) => {
                    let i = find_constant(x.constants, c.id);
                    if v.within(x.constants[i].min, x.constants[i].max) {
                        &&& y.log.len() == x.log.len() + 1
                        &&& y.log.drop_last() == x.log
                        &&& y.log.last().shader == shader
                        &&& y.log.last().constant == c.name
                        &&& y.log.last().old_value == c.value
                        &&& y.log.last().new_value == v
                        &&& y.log.last().state_hash == y.hash
                        &&& y.applied == x.applied + 1
                        &&& y.rejected == x.rejected
                    } else {
                        &&& y.log == x.log
                        &&& y.hash == x.hash
                        &&& y.constants == x.constants
                        &&& y.applied == x.applied
                        &&& y.rejected == x.rejected + 1
                        &&& y.refused.len() == x.refused.len() + 1
                    }
                },
            }
        }),
{
    let x = a.adapted(before, n - 1, shader, gpu);
    let y = a.adapted(before, n, shader, gpu);
    if y.log.len() == x.log.len() + 1 {
        assert(y.log.drop_last() =~= x.log);
    }
}

/// A template is verified by itself: the violations of all are those of the first ones and
/// those of the last.
pub proof fn violations_of_all_are_listed(entries: Seq<(String, ShaderTemplate)>, n: int, k: int)
    requires
        0 <= k < n <= entries.len(),
    ensures
        forall|c: ConstantModel|
            entries[k].1.constants().contains(c) && !c.in_bounds()
                ==> #[trigger] all_violations(entries, n).contains((c, c.value)),
    decreases n,
{
    let cs = entries[n - 1].1.constants();
    let own = violations(cs, cs.len() as int);
    let before = all_violations(entries, n - 1);
    let all = all_violations(entries, n);
    assert forall|c: ConstantModel|
        entries[k].1.constants().contains(c) && !c.in_bounds() implies #[trigger] all.contains(
        (c, c.value),
    ) by {
        let e = (c, c.value);
        if k < n - 1 {
            violations_of_all_are_listed(entries, n - 1, k);
            assert(before.contains(e));
            let j = choose|j: int| 0 <= j < before.len() && before[j] == e;
            assert(all[j] == e);
        } else {
            let i = choose|i: int| 0 <= i < cs.len() && cs[i] == c;
            let j = violation_stands(cs, cs.len() as int, i);
            assert(all[before.len() + j] == e);
        }
    }
}

proof fn violation_stands(cs: Seq<ConstantModel>, n: int, i: int) -> (j: int)
    requires
        0 <= i < n <= cs.len(),
        !cs[i].in_bounds(),
    ensures
        0 <= j < violations(cs, n).len(),
        violations(cs, n)[j] == (cs[i], cs[i].value),
    decreases n,
{
    if i < n - 1 {
        violation_stands(cs, n - 1, i)
    } else {
        violations(cs, n).len() - 1
    }
}

} // verus!
