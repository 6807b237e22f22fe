//! The report on what was changed in an adaptive pipeline.

use std::collections::HashMap;
use vstd::prelude::*;

use crate::text::{dec, push_dec};
use crate::vulkan_adaptive::{
    log_views, AdaptivePipeline, ConstantModel, GpuVendor, RecordModel, ShaderTemplate, SpecConstant,
    SpecValue,
};

verus! {

broadcast use vstd::std_specs::hash::group_hash_axioms;

/// The name of a maker.
pub open spec fn vendor_text(v: GpuVendor) -> Seq<char> {
    match v {
        GpuVendor::Nvidia => "Nvidia"@,
        GpuVendor::Amd => "Amd"@,
        GpuVendor::Intel => "Intel"@,
        GpuVendor::Apple => "Apple"@,
        GpuVendor::Qualcomm => "Qualcomm"@,
        GpuVendor::Unknown => "Unknown"@,
    }
}

/// The text of a value, given the decimal text of real values by their bits.
pub open spec fn value_text(v: SpecValue, reals: Map<u32, String>) -> Seq<char> {
    match v {
        SpecValue::U32(n) => "U32("@ + dec(n as nat) + ")"@,
        SpecValue::I32(n) => if n < 0 {
            "I32(-"@ + dec((-n) as nat) + ")"@
        } else {
            "I32("@ + dec(n as nat) + ")"@
        },
        SpecValue::F32(b) => "F32("@ + reals[b]@ + ")"@,
    }
}

/// There is a text for the value.
pub open spec fn has_text(v: SpecValue, reals: Map<u32, String>) -> bool {
    match v {
        SpecValue::F32(b) => reals.contains_key(b),
        _ => true,
    }
}

/// The character of a digit to base sixteen, in lower case.
pub open spec fn low_hex_char(d: nat) -> char {
    seq!['0', '1', '2', '3', '4', '5', '6', '7', '8', '9', 'a', 'b', 'c', 'd', 'e', 'f'][d as int]
}

/// The `width` lowest digits of `n` to base sixteen, highest first.
pub open spec fn low_hex(n: nat, width: nat) -> Seq<char>
    decreases width,
{
    if width == 0 {
        Seq::empty()
    } else {
        low_hex(n / 16, (width - 1) as nat).push(low_hex_char(n % 16))
    }
}

/// The entry of a change in the log.
pub open spec fn record_text(i: int, r: RecordModel, reals: Map<u32, String>) -> Seq<char> {
    "["@ + dec(i as nat) + "] "@ + r.shader + "."@ + r.constant + ": "@ + value_text(
        r.old_value,
        reals,
    ) + " → "@ + value_text(r.new_value, reals) + "\n    Reason: "@ + r.reason + "\n"@
}

/// The entries of the first `n` changes.
pub open spec fn log_text(log: Seq<RecordModel>, reals: Map<u32, String>, n: int) -> Seq<char>
    decreases n,
{
    if n <= 0 {
        Seq::empty()
    } else {
        log_text(log, reals, n - 1) + record_text(n - 1, log[n - 1], reals)
    }
}

/// The line of a constant.
pub open spec fn constant_text(c: ConstantModel, reals: Map<u32, String>) -> Seq<char> {
    "  ["@ + dec(c.id as nat) + "] "@ + c.name + " = "@ + value_text(c.value, reals)
        + " (bounds: "@ + value_text(c.min, reals) + ".."@ + value_text(c.max, reals) + ")\n"@
}

/// The lines of the first `n` constants.
pub open spec fn constants_text(
    constants: Seq<ConstantModel>,
    reals: Map<u32, String>,
    n: int,
) -> Seq<char>
    decreases n,
{
    if n <= 0 {
        Seq::empty()
    } else {
        constants_text(constants, reals, n - 1) + constant_text(constants[n - 1], reals)
    }
}

/// The lines of the first `n` templates.
pub open spec fn templates_text(
    templates: Seq<(String, ShaderTemplate)>,
    reals: Map<u32, String>,
    n: int,
) -> Seq<char>
    decreases n,
{
    if n <= 0 {
        Seq::empty()
    } else {
        let (name, t) = templates[n - 1];
        templates_text(templates, reals, n - 1) + "Shader: "@ + name@ + "\n"@ + constants_text(
            t.constants(),
            reals,
            t.constants().len() as int,
        )
    }
}

/// There is a text for every value of the record.
pub open spec fn record_has_texts(r: RecordModel, reals: Map<u32, String>) -> bool {
    has_text(r.old_value, reals) && has_text(r.new_value, reals)
}

/// There is a text for every value of the constant.
pub open spec fn constant_has_texts(c: ConstantModel, reals: Map<u32, String>) -> bool {
    has_text(c.value, reals) && has_text(c.min, reals) && has_text(c.max, reals)
}

/// There is a text for every value of the constants.
pub open spec fn constants_have_texts(cs: Seq<ConstantModel>, reals: Map<u32, String>) -> bool {
    forall|k: int| 0 <= k < cs.len() ==> constant_has_texts(#[trigger] cs[k], reals)
}

fn vendor_name(v: GpuVendor) -> (s: &'static str)
    ensures
        s@ == vendor_text(v),
{
    match v {
        GpuVendor::Nvidia => "Nvidia",
        GpuVendor::Amd => "Amd",
        GpuVendor::Intel => "Intel",
        GpuVendor::Apple => "Apple",
        GpuVendor::Qualcomm => "Qualcomm",
        GpuVendor::Unknown => "Unknown",
    }
}

fn push_value(out: &mut String, v: SpecValue, reals: &HashMap<u32, String>)
    requires
        has_text(v, reals@),
    ensures
        final(out)@ == old(out)@ + value_text(v, reals@),
{
    match v {
        SpecValue::U32(n) => {
            out.append("U32(");
            push_dec(out, n as u64);
            out.append(")");
        },
        SpecValue::I32(n) => {
            if n < 0 {
                out.append("I32(-");
                push_dec(out, (-(n as i64)) as u64);
            } else {
                out.append("I32(");
                push_dec(out, n as u64);
            }
            out.append(")");
        },
        SpecValue::F32(b) => {
            out.append("F32(");
            match reals.get(&b) {
                Some(s) => {
                    out.append(s.as_str());
                },
                None => {},
            }
            out.append(")");
        },
    }
    assert(out@ =~= old(out)@ + value_text(v, reals@));
}

fn push_low_hex(out: &mut String, n: u64, width: u32)
    ensures
        final(out)@ == old(out)@ + low_hex(n as nat, width as nat),
    decreases width,
{
    if width > 0 {
        let digits: [char; 16] = [
            '0', '1', '2', '3', '4', '5', '6', '7', '8', '9', 'a', 'b', 'c', 'd', 'e', 'f',
        ];
        push_low_hex(out, n / 16, width - 1);
        out.push(digits[(n % 16) as usize]);
    }
    assert(out@ =~= old(out)@ + low_hex(n as nat, width as nat));
}

fn push_constant(out: &mut String, c: &SpecConstant, reals: &HashMap<u32, String>)
    requires
        constant_has_texts(c@, reals@),
    ensures
        final(out)@ == old(out)@ + constant_text(c@, reals@),
{
    out.append("  [");
    push_dec(out, c.constant_id as u64);
    out.append("] ");
    out.append(c.name.as_str());
    out.append(" = ");
    push_value(out, c.value, reals);
    out.append(" (bounds: ");
    push_value(out, c.min_value, reals);
    out.append("..");
    push_value(out, c.max_value, reals);
    out.append(")\n");
    assert(out@ =~= old(out)@ + constant_text(c@, reals@));
}

fn push_constants(out: &mut String, t: &ShaderTemplate, reals: &HashMap<u32, String>)
    requires
        constants_have_texts(t.constants(), reals@),
    ensures
        final(out)@ == old(out)@ + constants_text(
            t.constants(),
            reals@,
            t.constants().len() as int,
        ),
{
    let ghost cs = t.constants();
    let ghost before = out@;
    let mut k: usize = 0;
    assert(before =~= before + constants_text(cs, reals@, 0));
    while k < t.spec_constants.len()
        invariant
            cs == t.constants(),
            k <= cs.len(),
            constants_have_texts(cs, reals@),
            out@ == before + constants_text(cs, reals@, k as int),
        decreases cs.len() - k,
    {
        assert(cs[k as int] == t.spec_constants@[k as int]@);
        push_constant(out, &t.spec_constants[k], reals);
        k = k + 1;
        assert(out@ =~= before + constants_text(cs, reals@, k as int));
    }
}

impl AdaptivePipeline {
    /// There is a text for every real value of the log and of the constants.
    pub open spec fn has_texts(&self, reals: Map<u32, String>) -> bool {
        &&& forall|i: int|
            0 <= i < self.mutation_log@.len() ==> record_has_texts(
                (#[trigger] self.mutation_log@[i])@,
                reals,
            )
        &&& forall|i: int|
            0 <= i < self.templates.entries@.len() ==> constants_have_texts(
                (#[trigger] self.templates.entries@[i]).1.constants(),
                reals,
            )
    }

    /// What the report says, before the log.
    pub open spec fn report_head(&self) -> Seq<char> {
        let gpu = self.gpu_profile;
        "═══ VULKAN ADAPTIVE PIPELINE — AUDIT REPORT ═══\n\nGPU: "@
            + gpu.name@ + " ("@ + vendor_text(gpu.vendor) + ")\nCUs: "@ + dec(
            gpu.compute_units as nat,
        ) + " | Subgroup: "@ + dec(gpu.subgroup_size as nat) + " | VRAM: "@ + dec(
            gpu.vram_total_bytes as nat / (1024 * 1024),
        ) + "MB\nMutations Applied: "@ + dec(self.stats.mutations_applied as nat)
            + " | Rejected: "@ + dec(self.stats.mutations_rejected as nat)
            + "\n\n--- Mutation Log ---\n"@
    }

    /// What the report says.
    pub open spec fn report_text(&self, reals: Map<u32, String>) -> Seq<char> {
        self.report_head() + log_text(
            log_views(self.mutation_log@),
            reals,
            self.mutation_log@.len() as int,
        ) + "\n--- Current Constants ---\n"@ + templates_text(
            self.templates.entries@,
            reals,
            self.templates.entries@.len() as int,
        ) + "\nState Hash: 0x"@ + low_hex(self.last_state_hash as nat, 16) + "\n"@
    }

    fn push_head(&self, out: &mut String)
        ensures
            final(out)@ == old(out)@ + self.report_head(),
    {
        let gpu = &self.gpu_profile;
        out.append("═══ VULKAN ADAPTIVE PIPELINE — AUDIT REPORT ═══\n\nGPU: ");
        out.append(gpu.name.as_str());
        out.append(" (");
        out.append(vendor_name(gpu.vendor));
        out.append(")\nCUs: ");
        push_dec(out, gpu.compute_units as u64);
        out.append(" | Subgroup: ");
        push_dec(out, gpu.subgroup_size as u64);
        out.append(" | VRAM: ");
        push_dec(out, gpu.vram_total_bytes / (1024 * 1024));
        out.append("MB\nMutations Applied: ");
        push_dec(out, self.stats.mutations_applied);
        out.append(" | Rejected: ");
        push_dec(out, self.stats.mutations_rejected);
        out.append("\n\n--- Mutation Log ---\n");
        assert(out@ =~= old(out)@ + self.report_head());
    }

    fn push_record(&self, out: &mut String, i: usize, reals: &HashMap<u32, String>)
        requires
            i < self.mutation_log@.len(),
            record_has_texts(self.mutation_log@[i as int]@, reals@),
        ensures
            final(out)@ == old(out)@ + record_text(
                i as int,
                self.mutation_log@[i as int]@,
                reals@,
            ),
    {
        let r = &self.mutation_log[i];
        out.append("[");
        push_dec(out, i as u64);
        out.append("] ");
        out.append(r.shader_name.as_str());
        out.append(".");
        out.append(r.constant_name.as_str());
        out.append(": ");
        push_value(out, r.old_value, reals);
        out.append(" → ");
        push_value(out, r.new_value, reals);
        out.append("\n    Reason: ");
        out.append(r.reason.as_str());
        out.append("\n");
        assert(out@ =~= old(out)@ + record_text(i as int, r@, reals@));
    }

    /// The changes and the constants as text. `reals` gives the decimal text of
    /// real values by their bits.
    pub fn audit_report(&self, reals: &HashMap<u32, String>) -> (s: String)
        requires
            self.has_texts(reals@),
        ensures
            s@ == self.report_text(reals@),
    {
        let ghost log = log_views(self.mutation_log@);
        let ghost templates = self.templates.entries@;
        let mut s = String::new();
        self.push_head(&mut s);
        let ghost head = self.report_head();
        assert(s@ =~= head + log_text(log, reals@, 0));
        let mut i: usize = 0;
        while i < self.mutation_log.len()
            invariant
                self.has_texts(reals@),
                i <= self.mutation_log@.len(),
                log == log_views(self.mutation_log@),
                s@ == head + log_text(log, reals@, i as int),
            decreases self.mutation_log@.len() - i,
        {
            self.push_record(&mut s, i, reals);
            i = i + 1;
            assert(s@ =~= head + log_text(log, reals@, i as int));
        }
        s.append("\n--- Current Constants ---\n");
        let ghost upto = s@;
        assert(s@ =~= upto + templates_text(templates, reals@, 0));
        let mut k: usize = 0;
        while k < self.templates.entries.len()
            invariant
                self.has_texts(reals@),
                templates == self.templates.entries@,
                k <= templates.len(),
                s@ == upto + templates_text(templates, reals@, k as int),
            decreases templates.len() - k,
        {
            let entry = &self.templates.entries[k];
            s.append("Shader: ");
            s.append(entry.0.as_str());
            s.append("\n");
            push_constants(&mut s, &entry.1, reals);
            k = k + 1;
            assert(s@ =~= upto + templates_text(templates, reals@, k as int));
        }
        s.append("\nState Hash: 0x");
        push_low_hex(&mut s, self.last_state_hash, 16);
        s.append("\n");
        assert(s@ =~= self.report_text(reals@));
        s
    }
}

/// The report tells of every change, in their order: what it says of a longer log begins
/// with what it says of a shorter one, and goes on with the next change and its number.
pub proof fn every_change_is_told(
    log: Seq<RecordModel>,
    reals: Map<u32, String>,
    k: int,
    n: int,
)
    requires
        0 <= k < n <= log.len(),
    ensures
        ({
            let text = log_text(log, reals, n);
            let at = log_text(log, reals, k).len() as int;
            let r = log[k];
            let told = "["@ + dec(k as nat) + "] "@ + r.shader + "."@ + r.constant + ": "@
                + value_text(r.old_value, reals) + " → "@ + value_text(r.new_value, reals)
                + "\n    Reason: "@ + r.reason + "\n"@;
            &&& at + told.len() <= text.len()
            &&& text.subrange(at, at + told.len()) == told
        }),
    decreases n,
{
    let text = log_text(log, reals, n);
    let at = log_text(log, reals, k).len() as int;
    let told = record_text(k, log[k], reals);
    if k < n - 1 {
        every_change_is_told(log, reals, k, n - 1);
        let before = log_text(log, reals, n - 1);
        assert(text.subrange(at, at + told.len()) =~= before.subrange(at, at + told.len()));
    } else {
        assert(text.subrange(at, at + told.len()) =~= told);
    }
}

/// The digits of a hash are as many as asked for, and each stands for its four bits.
pub proof fn hash_digits_stand_for_bits(n: nat, width: nat)
    requires
        width > 0,
    ensures
        low_hex(n, width).len() == width,
        low_hex(n, width).drop_last() == low_hex(n / 16, (width - 1) as nat),
        ({
            let c = low_hex(n, width).last() as int;
            c == if n % 16 < 10 {
                '0' as int + n % 16
            } else {
                'a' as int + n % 16 - 10
            }
        }),
    decreases width,
{
    if width > 1 {
        hash_digits_stand_for_bits(n / 16, (width - 1) as nat);
    }
    assert(low_hex(n, width).drop_last() =~= low_hex(n / 16, (width - 1) as nat));
}

} // verus!
