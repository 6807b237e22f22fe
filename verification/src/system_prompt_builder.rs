//! System prompts made of sections: editing them, putting them together as text,
//! and templates to begin with.

use vstd::prelude::*;

use crate::clock::{now, since_epoch, whole_seconds};
use crate::paths::{home_of, join_path, joined, nodestor_home};
use crate::prompt_texts::{
    ENTERPRISE_IDENTITY_A, ENTERPRISE_IDENTITY_B, ENTERPRISE_IDENTITY_C,
    ENTERPRISE_CAPABILITIES_A, ENTERPRISE_CAPABILITIES_B, ENTERPRISE_CAPABILITIES_C,
    ENTERPRISE_TONE, ENTERPRISE_BEHAVIORAL_RULES, ENTERPRISE_REFUSAL_POLICY,
    ENTERPRISE_KNOWLEDGE_LIMITS, ENTERPRISE_OUTPUT_FORMAT, MINIMAL_IDENTITY_A,
    MINIMAL_IDENTITY_B, MINIMAL_RULES, TECHNICAL_IDENTITY_A, TECHNICAL_IDENTITY_B,
    TECHNICAL_CODE_QUALITY, TECHNICAL_REASONING, TECHNICAL_OUTPUT, CUSTOMER_SUPPORT_IDENTITY_A,
    CUSTOMER_SUPPORT_IDENTITY_B, CUSTOMER_SUPPORT_EMPATHY, CUSTOMER_SUPPORT_ESCALATION,
    CUSTOMER_SUPPORT_SCOPE_A, CUSTOMER_SUPPORT_SCOPE_B, CREATIVE_IDENTITY_A,
    CREATIVE_IDENTITY_B, CREATIVE_STYLE_GUIDE, CREATIVE_CONTENT_POLICY, SECURITY_IDENTITY_A,
    SECURITY_IDENTITY_B, SECURITY_AUTHORIZATION, SECURITY_FRAMEWORK, SECURITY_REPORTING,
    SECURITY_LIMITATIONS, FABLE5_LEVEL_IDENTITY_A, FABLE5_LEVEL_IDENTITY_B,
    FABLE5_LEVEL_REASONING, FABLE5_LEVEL_TONE, FABLE5_LEVEL_EPISTEMIC,
    FABLE5_LEVEL_OUTPUT_QUALITY, FABLE5_LEVEL_CREATIVE, FABLE5_LEVEL_WELLBEING,
    FABLE5_LEVEL_MISTAKES, FABLE5_LEVEL_DESCRIPTION,
};
use crate::ranking::{is_ranking, rank_desc, ranking_of};
use crate::text::{
    check_contains, check_ends_with, contains, dec, ends_with, join, join_strings, lower_case,
    push_dec, push_padded, same, trim, trimmed, views, zero_padded,
};

verus! {

// ─── Sections ────────────────────────────────────────────────────────────────

/// A section of a system prompt.
#[derive(Debug)]
pub struct PromptSection {
    pub id: String,
    /// The tag around the content; none if empty.
    pub tag: String,
    pub title: String,
    pub content: String,
    /// A section that is not enabled is left out of the prompt.
    pub enabled: bool,
    /// Sections with a higher priority come first.
    pub priority: u32,
}

/// What a section holds.
pub struct SectionView {
    pub id: Seq<char>,
    pub tag: Seq<char>,
    pub title: Seq<char>,
    pub content: Seq<char>,
    pub enabled: bool,
    pub priority: u32,
}

/// An enabled section with these fields.
pub open spec fn section(
    id: Seq<char>,
    tag: Seq<char>,
    title: Seq<char>,
    content: Seq<char>,
    priority: u32,
) -> SectionView {
    SectionView { id, tag, title, content, enabled: true, priority }
}

impl View for PromptSection {
    type V = SectionView;

    open spec fn view(&self) -> SectionView {
        SectionView {
            id: self.id@,
            tag: self.tag@,
            title: self.title@,
            content: self.content@,
            enabled: self.enabled,
            priority: self.priority,
        }
    }
}

impl PromptSection {
    /// An enabled section.
    pub fn new(id: &str, tag: &str, title: &str, content: &str, priority: u32) -> (s: PromptSection)
        ensures
            s@ == section(id@, tag@, title@, content@, priority),
    {
        PromptSection {
            id: id.to_string(),
            tag: tag.to_string(),
            title: title.to_string(),
            content: content.to_string(),
            enabled: true,
            priority,
        }
    }

    /// The section as it stands in the prompt.
    pub open spec fn text(&self) -> Seq<char> {
        if self.tag@.len() == 0 {
            trim(self.content@)
        } else {
            "<"@ + self.tag@ + ">\n\n"@ + trim(self.content@) + "\n\n</"@ + self.tag@ + ">"@
        }
    }

    fn render(&self) -> (s: String)
        ensures
            s@ == self.text(),
    {
        let body = trimmed(self.content.as_str());
        if self.tag.as_str().unicode_len() == 0 {
            return body;
        }
        let mut s = "<".to_string();
        s.append(self.tag.as_str());
        s.append(">\n\n");
        s.append(body.as_str());
        s.append("\n\n</");
        s.append(self.tag.as_str());
        s.append(">");
        s
    }
}

/// What is known of a system prompt besides its sections.
#[derive(Debug)]
pub struct PromptMeta {
    pub version: String,
    pub created: String,
    pub target_model: String,
    pub use_case: String,
    /// How many tokens the model may use; stated at the head of the prompt.
    pub token_budget: Option<u32>,
}

/// A system prompt.
#[derive(Debug)]
pub struct SystemPrompt {
    pub name: String,
    pub description: String,
    pub sections: Vec<PromptSection>,
    pub meta: PromptMeta,
}

/// The sort keys of sections.
pub open spec fn priorities(sections: Seq<PromptSection>) -> Seq<i128> {
    sections.map_values(|s: PromptSection| s.priority as i128)
}

/// The indices of sections, those with a higher priority first and equal ones
/// in their order.
pub open spec fn order(sections: Seq<PromptSection>) -> Seq<usize> {
    ranking_of(priorities(sections))
}

/// The texts of the enabled ones among the first `n` sections of an order.
pub open spec fn enabled_texts(
    sections: Seq<PromptSection>,
    order: Seq<usize>,
    n: int,
) -> Seq<Seq<char>>
    decreases n,
{
    if n <= 0 {
        Seq::empty()
    } else {
        let s = sections[order[n - 1] as int];
        let before = enabled_texts(sections, order, n - 1);
        if s.enabled {
            before.push(s.text())
        } else {
            before
        }
    }
}

/// How many of the first `n` sections are enabled.
pub open spec fn enabled_count(sections: Seq<PromptSection>, n: int) -> nat
    decreases n,
{
    if n <= 0 {
        0
    } else {
        enabled_count(sections, n - 1) + if sections[n - 1].enabled {
            1nat
        } else {
            0nat
        }
    }
}

/// The first section from `from` on with this id.
pub open spec fn place_of(sections: Seq<PromptSection>, id: Seq<char>, from: int) -> Option<int>
    decreases sections.len() - from,
{
    if from < 0 || from >= sections.len() {
        None
    } else if sections[from].id@ == id {
        Some(from)
    } else {
        place_of(sections, id, from + 1)
    }
}

/// The first `n` sections without those with this id.
pub open spec fn without_id(sections: Seq<PromptSection>, id: Seq<char>, n: int) -> Seq<
    PromptSection,
>
    decreases n,
{
    if n <= 0 {
        Seq::empty()
    } else if sections[n - 1].id@ == id {
        without_id(sections, id, n - 1)
    } else {
        without_id(sections, id, n - 1).push(sections[n - 1])
    }
}

impl SystemPrompt {
    /// The parts of the prompt: the budget, if there is one, and the enabled
    /// sections in their order.
    pub open spec fn parts(&self) -> Seq<Seq<char>> {
        (match self.meta.token_budget {
            Some(b) => seq![
                "<budget:token_budget>\n\n"@ + dec(b as nat) + "\n\n</budget:token_budget>"@,
            ],
            None => Seq::empty(),
        }) + enabled_texts(
            self.sections@,
            order(self.sections@),
            self.sections@.len() as int,
        )
    }

    /// The prompt as text.
    pub open spec fn compiled(&self) -> Seq<char> {
        join(self.parts(), "\n\n"@)
    }

    /// What the sections hold.
    pub open spec fn contents(&self) -> Seq<SectionView> {
        self.sections@.map_values(|s: PromptSection| s@)
    }

    /// The prompt is a new one with these fields.
    pub open spec fn is_template(
        &self,
        name: Seq<char>,
        description: Seq<char>,
        use_case: Seq<char>,
        target_model: Seq<char>,
        token_budget: Option<u32>,
        sections: Seq<SectionView>,
    ) -> bool {
        &&& self.name@ == name
        &&& self.description@ == description
        &&& self.meta.version@ == "1.0"@
        &&& is_a_date(self.meta.created@)
        &&& self.meta.use_case@ == use_case
        &&& self.meta.target_model@ == target_model
        &&& self.meta.token_budget == token_budget
        &&& self.contents() == sections
    }

    /// A prompt without sections.
    pub fn new(name: &str, description: &str, use_case: &str) -> (sp: SystemPrompt)
        ensures
            sp.is_template(
                name@,
                description@,
                use_case@,
                "nodestor-local"@,
                None::<u32>,
                Seq::<SectionView>::empty(),
            ),
    {
        let sp = SystemPrompt {
            name: name.to_string(),
            description: description.to_string(),
            sections: Vec::new(),
            meta: PromptMeta {
                version: "1.0".to_string(),
                created: current_date(),
                target_model: "nodestor-local".to_string(),
                use_case: use_case.to_string(),
                token_budget: None,
            },
        };
        assert(sp.contents() =~= Seq::<SectionView>::empty());
        sp
    }

    fn place(&mut self, id: &str, tag: &str, title: &str, content: &str, priority: u32)
        ensures
            final(self).contents() == old(self).contents().push(
                section(id@, tag@, title@, content@, priority),
            ),
            final(self).name == old(self).name,
            final(self).description == old(self).description,
            final(self).meta == old(self).meta,
    {
        let s = PromptSection::new(id, tag, title, content, priority);
        self.sections.push(s);
        assert(self.contents() =~= old(self).contents().push(s@));
    }

    fn ranked(&self) -> (r: Vec<usize>)
        ensures
            r@ == order(self.sections@),
            is_ranking(priorities(self.sections@), r@),
            r@.len() == self.sections@.len(),
    {
        let mut keys: Vec<i128> = Vec::new();
        let mut i: usize = 0;
        while i < self.sections.len()
            invariant
                i <= self.sections@.len(),
                keys@.len() == i,
                forall|j: int| 0 <= j < i ==> #[trigger] keys@[j] == self.sections@[j].priority,
            decreases self.sections@.len() - i,
        {
            keys.push(self.sections[i].priority as i128);
            i = i + 1;
        }
        assert(keys@ =~= priorities(self.sections@));
        rank_desc(&keys)
    }

    /// The prompt as text: the enabled sections, each inside its tag, those with
    /// a higher priority first.
    pub fn compile(&self) -> (s: String)
        ensures
            s@ == self.compiled(),
    {
        let ranks = self.ranked();
        let mut parts: Vec<String> = Vec::new();
        let ghost head = match self.meta.token_budget {
            Some(b) => seq![
                "<budget:token_budget>\n\n"@ + dec(b as nat) + "\n\n</budget:token_budget>"@,
            ],
            None => Seq::<Seq<char>>::empty(),
        };
        if let Some(budget) = self.meta.token_budget {
            let mut s = "<budget:token_budget>\n\n".to_string();
            push_dec(&mut s, budget as u64);
            s.append("\n\n</budget:token_budget>");
            parts.push(s);
        }
        assert(views(parts@) =~= head);
        let mut i: usize = 0;
        assert(head + enabled_texts(self.sections@, ranks@, 0) =~= head);
        while i < ranks.len()
            invariant
                ranks@ == order(self.sections@),
                is_ranking(priorities(self.sections@), ranks@),
                ranks@.len() == self.sections@.len(),
                i <= ranks@.len(),
                views(parts@) == head + enabled_texts(self.sections@, ranks@, i as int),
            decreases ranks@.len() - i,
        {
            assert(0 <= ranks@[i as int] < self.sections@.len());
            let s = &self.sections[ranks[i]];
            let ghost before = parts@;
            if s.enabled {
                let t = s.render();
                parts.push(t);
                assert(views(parts@) =~= views(before).push(t@));
            }
            i = i + 1;
            assert(views(parts@) =~= head + enabled_texts(self.sections@, ranks@, i as int));
        }
        join_strings(&parts, "\n\n")
    }

    /// A guess at how many tokens the prompt is: one for four bytes.
    pub fn estimated_tokens(&self) -> (n: usize)
        ensures
            n == (vstd::utf8::encode_utf8(self.compiled()).len() as usize) / 4,
    {
        let s = self.compile();
        s.as_str().len() / 4
    }

    /// How many sections are enabled, and how many there are.
    pub fn section_stats(&self) -> (r: (usize, usize))
        ensures
            r.0 == enabled_count(self.sections@, self.sections@.len() as int),
            r.1 == self.sections@.len(),
    {
        let mut n: usize = 0;
        let mut i: usize = 0;
        while i < self.sections.len()
            invariant
                i <= self.sections@.len(),
                n <= i,
                n == enabled_count(self.sections@, i as int),
            decreases self.sections@.len() - i,
        {
            if self.sections[i].enabled {
                n = n + 1;
            }
            i = i + 1;
        }
        (n, self.sections.len())
    }

    fn find(&self, id: &str) -> (r: Option<usize>)
        ensures
            match r {
                Some(i) => place_of(self.sections@, id@, 0) == Some(i as int) && i
                    < self.sections@.len() && self.sections@[i as int].id@ == id@,
                None => place_of(self.sections@, id@, 0) is None,
            },
    {
        let mut i: usize = 0;
        while i < self.sections.len()
            invariant
                i <= self.sections@.len(),
                place_of(self.sections@, id@, 0) == place_of(self.sections@, id@, i as int),
            decreases self.sections@.len() - i,
        {
            if same(self.sections[i].id.as_str(), id) {
                return Some(i);
            }
            i = i + 1;
        }
        None
    }

    /// Puts a section in the place of the first with its id, or at the end if
    /// there is none.
    pub fn upsert_section(&mut self, section: PromptSection)
        ensures
            final(self).name == old(self).name,
            final(self).description == old(self).description,
            final(self).meta == old(self).meta,
            final(self).sections@ == match place_of(old(self).sections@, section.id@, 0) {
                Some(i) => old(self).sections@.update(i, section),
                None => old(self).sections@.push(section),
            },
    {
        match self.find(section.id.as_str()) {
            Some(i) => {
                self.sections.set(i, section);
            },
            None => {
                self.sections.push(section);
            },
        }
    }

    /// Takes out the sections with this id. Says whether there was one.
    pub fn remove_section(&mut self, id: &str) -> (b: bool)
        ensures
            final(self).name == old(self).name,
            final(self).description == old(self).description,
            final(self).meta == old(self).meta,
            final(self).sections@ == without_id(
                old(self).sections@,
                id@,
                old(self).sections@.len() as int,
            ),
            b == (place_of(old(self).sections@, id@, 0) is Some),
    {
        let b: bool = self.find(id).is_some();
        let ghost all = self.sections@;
        let n: usize = self.sections.len();
        let mut i: usize = 0;
        let mut j: usize = 0;
        assert(without_id(all, id@, 0) + all.subrange(0, n as int) =~= all);
        while j < n
            invariant
                n == all.len(),
                i <= j <= n,
                i == without_id(all, id@, j as int).len(),
                self.sections@ == without_id(all, id@, j as int) + all.subrange(j as int, n as int),
                self.name == old(self).name,
                self.description == old(self).description,
                self.meta == old(self).meta,
            decreases n - j,
        {
            assert(self.sections@[i as int] == all[j as int]);
            if same(self.sections[i].id.as_str(), id) {
                let _ = self.sections.remove(i);
            } else {
                i = i + 1;
            }
            j = j + 1;
            assert(self.sections@ =~= without_id(all, id@, j as int) + all.subrange(
                j as int,
                n as int,
            ));
        }
        assert(self.sections@ =~= without_id(all, id@, n as int));
        b
    }

    /// Enables or disables the first section with this id. Says whether there
    /// is one.
    pub fn toggle_section(&mut self, id: &str, enabled: bool) -> (b: bool)
        ensures
            final(self).name == old(self).name,
            final(self).description == old(self).description,
            final(self).meta == old(self).meta,
            match place_of(old(self).sections@, id@, 0) {
                Some(i) => b && final(self).sections@ == old(self).sections@.update(
                    i,
                    (PromptSection { enabled, ..old(self).sections@[i] }),
                ),
                None => !b && final(self).sections@ == old(self).sections@,
            },
    {
        match self.find(id) {
            Some(i) => {
                self.sections[i].enabled = enabled;
                true
            },
            None => false,
        }
    }

    /// The first section with this id.
    pub fn get_section(&self, id: &str) -> (r: Option<&PromptSection>)
        ensures
            match (r, place_of(self.sections@, id@, 0)) {
                (Some(s), Some(i)) => *s == self.sections@[i],
                (None, None) => true,
                _ => false,
            },
    {
        match self.find(id) {
            Some(i) => Some(&self.sections[i]),
            None => None,
        }
    }

    /// The first section with this id, to change it.
    pub fn get_section_mut(&mut self, id: &str) -> (r: Option<&mut PromptSection>)
        ensures
            final(self).name == old(self).name,
            final(self).description == old(self).description,
            final(self).meta == old(self).meta,
            match (r, place_of(old(self).sections@, id@, 0)) {
                (Some(s), Some(i)) => *s == old(self).sections@[i] && final(self).sections@ == old(
                    self,
                ).sections@.update(i, *final(s)),
                (None, None) => final(self).sections@ == old(self).sections@,
                _ => false,
            },
    {
        match self.find(id) {
            Some(i) => Some(&mut self.sections[i]),
            None => None,
        }
    }

    /// The sections, those with a higher priority first.
    pub fn sections_sorted(&self) -> (r: Vec<&PromptSection>)
        ensures
            r@.len() == self.sections@.len(),
            forall|k: int|
                0 <= k < r@.len() ==> *(#[trigger] r@[k]) == self.sections@[order(
                    self.sections@,
                )[k] as int],
    {
        let ranks = self.ranked();
        let mut r: Vec<&PromptSection> = Vec::new();
        let mut i: usize = 0;
        while i < ranks.len()
            invariant
                ranks@ == order(self.sections@),
                is_ranking(priorities(self.sections@), ranks@),
                ranks@.len() == self.sections@.len(),
                i <= ranks@.len(),
                r@.len() == i,
                forall|k: int|
                    0 <= k < i ==> *(#[trigger] r@[k]) == self.sections@[ranks@[k] as int],
            decreases ranks@.len() - i,
        {
            assert(0 <= ranks@[i as int] < self.sections@.len());
            r.push(&self.sections[ranks[i]]);
            i = i + 1;
        }
        r
    }
}

// ─── Laws of sections ────────────────────────────────────────────────────────

proof fn place_is_first(sections: Seq<PromptSection>, id: Seq<char>, from: int)
    requires
        0 <= from,
    ensures
        match place_of(sections, id, from) {
            Some(i) => from <= i < sections.len() && sections[i].id@ == id && forall|j: int|
                from <= j < i ==> (#[trigger] sections[j]).id@ != id,
            None => forall|j: int| from <= j < sections.len() ==> (#[trigger] sections[j]).id@ != id,
        },
    decreases sections.len() - from,
{
    if from < sections.len() && sections[from].id@ != id {
        place_is_first(sections, id, from + 1);
    }
}

proof fn place_from(sections: Seq<PromptSection>, id: Seq<char>, from: int, i: int)
    requires
        0 <= from <= i < sections.len(),
        sections[i].id@ == id,
        forall|j: int| from <= j < i ==> (#[trigger] sections[j]).id@ != id,
    ensures
        place_of(sections, id, from) == Some(i),
    decreases i - from,
{
    if from < i {
        place_from(sections, id, from + 1, i);
    }
}

/// A section that was put in is found under its id.
pub proof fn upserted_section_is_found(sections: Seq<PromptSection>, s: PromptSection)
    ensures
        ({
            let after = match place_of(sections, s.id@, 0) {
                Some(i) => sections.update(i, s),
                None => sections.push(s),
            };
            &&& place_of(after, s.id@, 0) is Some
            &&& after[place_of(after, s.id@, 0)->0] == s
        }),
{
    place_is_first(sections, s.id@, 0);
    match place_of(sections, s.id@, 0) {
        Some(i) => {
            let after = sections.update(i, s);
            assert forall|j: int| 0 <= j < i implies (#[trigger] after[j]).id@ != s.id@ by {
                assert(sections[j].id@ != s.id@);
            }
            place_from(after, s.id@, 0, i);
        },
        None => {
            let n = sections.len() as int;
            let after = sections.push(s);
            assert forall|j: int| 0 <= j < n implies (#[trigger] after[j]).id@ != s.id@ by {
                assert(sections[j].id@ != s.id@);
            }
            place_from(after, s.id@, 0, n);
        },
    }
}

/// A section that was taken out is no longer found, and the others stay.
pub proof fn removed_section_is_gone(sections: Seq<PromptSection>, id: Seq<char>, n: int)
    requires
        0 <= n <= sections.len(),
    ensures
        place_of(without_id(sections, id, n), id, 0) is None,
        forall|i: int|
            0 <= i < n && (#[trigger] sections[i]).id@ != id ==> without_id(
                sections,
                id,
                n,
            ).contains(sections[i]),
    decreases n,
{
    let after = without_id(sections, id, n);
    if n > 0 {
        removed_section_is_gone(sections, id, n - 1);
        let before = without_id(sections, id, n - 1);
        place_is_first(before, id, 0);
        place_is_first(after, id, 0);
        assert forall|i: int| 0 <= i < n && (#[trigger] sections[i]).id@ != id implies after.contains(
            sections[i],
        ) by {
            if i < n - 1 {
                assert(before.contains(sections[i]));
                let k = choose|k: int| 0 <= k < before.len() && before[k] == sections[i];
                assert(after[k] == sections[i]);
            } else {
                assert(after[after.len() - 1] == sections[i]);
            }
        }
        if place_of(after, id, 0) is Some {
            let k = place_of(after, id, 0)->0;
            if k < before.len() {
                assert(before[k] == after[k]);
            }
        }
    }
}

// ─── Templates ───────────────────────────────────────────────────────────────

/// A prompt to begin with.
#[derive(Debug, Clone, Copy, PartialEq, Eq, Structural)]
pub enum PromptTemplate {
    Enterprise,
    Minimal,
    Technical,
    CustomerSupport,
    Creative,
    Security,
    /// For any model and any task.
    Fable5Level,
}

/// The template of a name in lower case.
pub open spec fn template_of(name: Seq<char>) -> Option<PromptTemplate> {
    if name == "enterprise"@ {
        Some(PromptTemplate::Enterprise)
    } else if name == "minimal"@ {
        Some(PromptTemplate::Minimal)
    } else if name == "technical"@ || name == "tech"@ {
        Some(PromptTemplate::Technical)
    } else if name == "customer_support"@ || name == "support"@ || name == "cs"@ {
        Some(PromptTemplate::CustomerSupport)
    } else if name == "creative"@ {
        Some(PromptTemplate::Creative)
    } else if name == "security"@ || name == "sec"@ {
        Some(PromptTemplate::Security)
    } else if name == "fable5"@ || name == "fable"@ || name == "elite"@ || name == "f5"@ {
        Some(PromptTemplate::Fable5Level)
    } else {
        None
    }
}

impl PromptTemplate {
    /// The template of a name in lower case.
    pub fn from_lower_case(s: &str) -> (r: Option<PromptTemplate>)
        ensures
            r == template_of(s@),
    {
        if same(s, "enterprise") {
            Some(PromptTemplate::Enterprise)
        } else if same(s, "minimal") {
            Some(PromptTemplate::Minimal)
        } else if same(s, "technical") || same(s, "tech") {
            Some(PromptTemplate::Technical)
        } else if same(s, "customer_support") || same(s, "support") || same(s, "cs") {
            Some(PromptTemplate::CustomerSupport)
        } else if same(s, "creative") {
            Some(PromptTemplate::Creative)
        } else if same(s, "security") || same(s, "sec") {
            Some(PromptTemplate::Security)
        } else if same(s, "fable5") || same(s, "fable") || same(s, "elite") || same(s, "f5") {
            Some(PromptTemplate::Fable5Level)
        } else {
            None
        }
    }

    /// The template of a name, in whatever case.
    pub fn from_str(s: &str) -> (r: Option<PromptTemplate>)
        ensures
            r == template_of(lower_case(s@)),
    {
        let lower = s.to_lowercase();
        Self::from_lower_case(lower.as_str())
    }

    /// The name and a description of each template.
    pub fn all_names() -> (r: Vec<(&'static str, &'static str)>)
        ensures
            r@.len() == 7,
            r@[0].0@ == "enterprise"@,
            r@[0].1@
                == "Assistente empresarial completo — persona, capabilities, tom, regras, políticas"@,
            r@[1].0@ == "minimal"@,
            r@[1].1@ == "Instruções mínimas — identidade + regras básicas de comportamento"@,
            r@[2].0@ == "technical"@,
            r@[2].1@ == "Engenheiro de software — foco em código, análise técnica e qualidade"@,
            r@[3].0@ == "customer_support"@,
            r@[3].1@ == "Suporte ao cliente — empatia, escalação e escopo de atendimento"@,
            r@[4].0@ == "creative"@,
            r@[4].1@ == "Assistente criativo — persona, guia de estilo e limites de conteúdo"@,
            r@[5].0@ == "security"@,
            r@[5].1@ == "Analista de segurança — autorização, framework de análise e relatórios"@,
            r@[6].0@ == "fable5"@,
            r@[6].1@
                == "★ ELITE — Princípios do Fable 5: raciocínio profundo, precisão epistêmica, comunicação calorosa, excelência criativa"@,
    {
        let mut r: Vec<(&'static str, &'static str)> = Vec::new();
        r.push(
            (
                "enterprise",
                "Assistente empresarial completo — persona, capabilities, tom, regras, políticas",
            ),
        );
        r.push(
            ("minimal", "Instruções mínimas — identidade + regras básicas de comportamento"),
        );
        r.push(
            ("technical", "Engenheiro de software — foco em código, análise técnica e qualidade"),
        );
        r.push(
            (
                "customer_support",
                "Suporte ao cliente — empatia, escalação e escopo de atendimento",
            ),
        );
        r.push(
            ("creative", "Assistente criativo — persona, guia de estilo e limites de conteúdo"),
        );
        r.push(
            ("security", "Analista de segurança — autorização, framework de análise e relatórios"),
        );
        r.push(
            (
                "fable5",
                "★ ELITE — Princípios do Fable 5: raciocínio profundo, precisão epistêmica, comunicação calorosa, excelência criativa",
            ),
        );
        r
    }

    /// The prompt is what the template gives for a company.
    pub open spec fn gives(self, c: Seq<char>, sp: SystemPrompt) -> bool {
        match self {
            PromptTemplate::Enterprise => sp.is_template(
                c + " — Assistente Enterprise"@,
                "System prompt enterprise completo para "@ + c,
                "enterprise_assistant"@,
                "sonnet-4-6"@,
                Some(180_000u32),
                enterprise_sections(c),
            ),
            PromptTemplate::Minimal => sp.is_template(
                c + " — Assistente Mínimo"@,
                "System prompt mínimo — identidade e regras básicas"@,
                "minimal_assistant"@,
                "nodestor-local"@,
                None::<u32>,
                minimal_sections(c),
            ),
            PromptTemplate::Technical => sp.is_template(
                c + " — Engenheiro de Software"@,
                "System prompt para assistente técnico de engenharia de software"@,
                "technical_engineering"@,
                "nodestor-local"@,
                None::<u32>,
                technical_sections(c),
            ),
            PromptTemplate::CustomerSupport => sp.is_template(
                c + " — Suporte ao Cliente"@,
                "System prompt para agente de suporte ao cliente"@,
                "customer_support"@,
                "nodestor-local"@,
                None::<u32>,
                customer_support_sections(c),
            ),
            PromptTemplate::Creative => sp.is_template(
                c + " — Assistente Criativo"@,
                "System prompt para assistente de escrita criativa e geração de conteúdo"@,
                "creative_writing"@,
                "nodestor-local"@,
                None::<u32>,
                creative_sections(c),
            ),
            PromptTemplate::Security => sp.is_template(
                c + " — Analista de Segurança"@,
                "System prompt para análise de segurança em contexto autorizado"@,
                "security_analysis"@,
                "nodestor-local"@,
                None::<u32>,
                security_sections(c),
            ),
            PromptTemplate::Fable5Level => sp.is_template(
                universal_name(c),
                FABLE5_LEVEL_DESCRIPTION@,
                "elite_universal"@,
                "universal"@,
                Some(180_000u32),
                fable5_level_sections(company_clause(c)),
            ),
        }
    }

    /// The prompt of the template for a company; `[EMPRESA]` stands for one
    /// that is not given.
    pub fn build(&self, company: Option<&str>) -> (sp: SystemPrompt)
        ensures
            self.gives(
                match company {
                    Some(c) => c@,
                    None => "[EMPRESA]"@,
                },
                sp,
            ),
    {
        let c: &str = match company {
            Some(c) => c,
            None => "[EMPRESA]",
        };
        match self {
            PromptTemplate::Enterprise => build_enterprise(c),
            PromptTemplate::Minimal => build_minimal(c),
            PromptTemplate::Technical => build_technical(c),
            PromptTemplate::CustomerSupport => build_customer_support(c),
            PromptTemplate::Creative => build_creative(c),
            PromptTemplate::Security => build_security(c),
            PromptTemplate::Fable5Level => build_fable5_level(c),
        }
    }
}

/// The sections of the template.
pub open spec fn enterprise_sections(company: Seq<char>) -> Seq<SectionView> {
    seq![
        section(
            "identity"@,
            "ai_identity"@,
            "Identidade e Persona"@,
            ENTERPRISE_IDENTITY_A@ + company + ENTERPRISE_IDENTITY_B@ + company + ENTERPRISE_IDENTITY_C@,
            100,
        ),
        section(
            "capabilities"@,
            "capabilities_and_scope"@,
            "Capacidades e Escopo"@,
            ENTERPRISE_CAPABILITIES_A@ + company + ENTERPRISE_CAPABILITIES_B@ + company + ENTERPRISE_CAPABILITIES_C@,
            90,
        ),
        section(
            "tone"@,
            "tone_and_communication"@,
            "Tom e Comunicação"@,
            ENTERPRISE_TONE@,
            80,
        ),
        section(
            "behavioral_rules"@,
            "behavioral_rules"@,
            "Regras de Comportamento"@,
            ENTERPRISE_BEHAVIORAL_RULES@,
            70,
        ),
        section(
            "refusal_policy"@,
            "refusal_policy"@,
            "Política de Recusa"@,
            ENTERPRISE_REFUSAL_POLICY@,
            60,
        ),
        section(
            "knowledge_limits"@,
            "knowledge_limitations"@,
            "Limitações de Conhecimento"@,
            ENTERPRISE_KNOWLEDGE_LIMITS@,
            50,
        ),
        section(
            "output_format"@,
            "output_format"@,
            "Formato de Saída"@,
            ENTERPRISE_OUTPUT_FORMAT@,
            40,
        ),
    ]
}

/// The sections of the template.
pub open spec fn minimal_sections(company: Seq<char>) -> Seq<SectionView> {
    seq![
        section(
            "identity"@,
            ""@,
            "Identidade"@,
            MINIMAL_IDENTITY_A@ + company + MINIMAL_IDENTITY_B@,
            100,
        ),
        section(
            "rules"@,
            ""@,
            "Regras"@,
            MINIMAL_RULES@,
            90,
        ),
    ]
}

/// The sections of the template.
pub open spec fn technical_sections(company: Seq<char>) -> Seq<SectionView> {
    seq![
        section(
            "identity"@,
            "engineer_identity"@,
            "Identidade do Engenheiro"@,
            TECHNICAL_IDENTITY_A@ + company + TECHNICAL_IDENTITY_B@,
            100,
        ),
        section(
            "code_quality"@,
            "code_quality_standards"@,
            "Padrões de Qualidade de Código"@,
            TECHNICAL_CODE_QUALITY@,
            90,
        ),
        section(
            "reasoning"@,
            "technical_reasoning"@,
            "Raciocínio Técnico"@,
            TECHNICAL_REASONING@,
            80,
        ),
        section(
            "output"@,
            "technical_output_format"@,
            "Formato de Saída Técnica"@,
            TECHNICAL_OUTPUT@,
            70,
        ),
    ]
}

/// The sections of the template.
pub open spec fn customer_support_sections(company: Seq<char>) -> Seq<SectionView> {
    seq![
        section(
            "identity"@,
            "agent_identity"@,
            "Identidade do Agente"@,
            CUSTOMER_SUPPORT_IDENTITY_A@ + company + CUSTOMER_SUPPORT_IDENTITY_B@,
            100,
        ),
        section(
            "empathy"@,
            "customer_empathy"@,
            "Empatia e Comunicação"@,
            CUSTOMER_SUPPORT_EMPATHY@,
            90,
        ),
        section(
            "escalation"@,
            "escalation_policy"@,
            "Política de Escalação"@,
            CUSTOMER_SUPPORT_ESCALATION@,
            80,
        ),
        section(
            "scope"@,
            "support_scope"@,
            "Escopo de Suporte"@,
            CUSTOMER_SUPPORT_SCOPE_A@ + company + CUSTOMER_SUPPORT_SCOPE_B@,
            70,
        ),
    ]
}

/// The sections of the template.
pub open spec fn creative_sections(company: Seq<char>) -> Seq<SectionView> {
    seq![
        section(
            "identity"@,
            "creative_identity"@,
            "Persona Criativa"@,
            CREATIVE_IDENTITY_A@ + company + CREATIVE_IDENTITY_B@,
            100,
        ),
        section(
            "style_guide"@,
            "creative_style_guide"@,
            "Guia de Estilo Criativo"@,
            CREATIVE_STYLE_GUIDE@,
            90,
        ),
        section(
            "content_policy"@,
            "content_boundaries"@,
            "Limites de Conteúdo"@,
            CREATIVE_CONTENT_POLICY@,
            70,
        ),
    ]
}

/// The sections of the template.
pub open spec fn security_sections(company: Seq<char>) -> Seq<SectionView> {
    seq![
        section(
            "identity"@,
            "security_analyst_identity"@,
            "Identidade do Analista"@,
            SECURITY_IDENTITY_A@ + company + SECURITY_IDENTITY_B@,
            100,
        ),
        section(
            "authorization"@,
            "authorization_context"@,
            "Contexto de Autorização"@,
            SECURITY_AUTHORIZATION@,
            90,
        ),
        section(
            "framework"@,
            "security_analysis_framework"@,
            "Framework de Análise"@,
            SECURITY_FRAMEWORK@,
            80,
        ),
        section(
            "reporting"@,
            "security_finding_reporting"@,
            "Relatório de Findings"@,
            SECURITY_REPORTING@,
            70,
        ),
        section(
            "limitations"@,
            "analysis_limitations"@,
            "Limitações da Análise"@,
            SECURITY_LIMITATIONS@,
            50,
        ),
    ]
}

/// The sections of the template.
pub open spec fn fable5_level_sections(clause: Seq<char>) -> Seq<SectionView> {
    seq![
        section(
            "identity"@,
            "ai_identity"@,
            "Identidade e Capacidades"@,
            FABLE5_LEVEL_IDENTITY_A@ + clause + FABLE5_LEVEL_IDENTITY_B@,
            100,
        ),
        section(
            "reasoning"@,
            "reasoning_protocol"@,
            "Protocolo de Raciocínio"@,
            FABLE5_LEVEL_REASONING@,
            90,
        ),
        section(
            "tone"@,
            "tone_and_communication"@,
            "Tom e Comunicação"@,
            FABLE5_LEVEL_TONE@,
            80,
        ),
        section(
            "epistemic"@,
            "epistemic_standards"@,
            "Padrões Epistêmicos"@,
            FABLE5_LEVEL_EPISTEMIC@,
            70,
        ),
        section(
            "output_quality"@,
            "output_quality"@,
            "Qualidade de Saída"@,
            FABLE5_LEVEL_OUTPUT_QUALITY@,
            60,
        ),
        section(
            "creative"@,
            "creative_engagement"@,
            "Engajamento Criativo"@,
            FABLE5_LEVEL_CREATIVE@,
            50,
        ),
        section(
            "wellbeing"@,
            "user_wellbeing"@,
            "Cuidado com o Usuário"@,
            FABLE5_LEVEL_WELLBEING@,
            40,
        ),
        section(
            "mistakes"@,
            "responding_to_mistakes"@,
            "Resposta a Erros e Críticas"@,
            FABLE5_LEVEL_MISTAKES@,
            30,
        ),
    ]
}

/// The template of an assistant for a company.
pub fn build_enterprise(company: &str) -> (sp: SystemPrompt)
    ensures
        sp.is_template(
            company@ + " — Assistente Enterprise"@,
            "System prompt enterprise completo para "@ + company@,
            "enterprise_assistant"@,
            "sonnet-4-6"@,
            Some(180_000u32),
            enterprise_sections(company@),
        ),
{
    let mut name = company.to_string();
    name.append(" — Assistente Enterprise");
    let mut description = "System prompt enterprise completo para ".to_string();
    description.append(company);
    let mut sp = SystemPrompt::new(name.as_str(), description.as_str(), "enterprise_assistant");
    sp.meta.target_model = "sonnet-4-6".to_string();
    sp.meta.token_budget = Some(180_000);
    let mut text = ENTERPRISE_IDENTITY_A.to_string();
    text.append(company);
    text.append(ENTERPRISE_IDENTITY_B);
    text.append(company);
    text.append(ENTERPRISE_IDENTITY_C);
    sp.place(
        "identity",
        "ai_identity",
        "Identidade e Persona",
        text.as_str(),
        100,
    );
    let mut text = ENTERPRISE_CAPABILITIES_A.to_string();
    text.append(company);
    text.append(ENTERPRISE_CAPABILITIES_B);
    text.append(company);
    text.append(ENTERPRISE_CAPABILITIES_C);
    sp.place(
        "capabilities",
        "capabilities_and_scope",
        "Capacidades e Escopo",
        text.as_str(),
        90,
    );
    sp.place(
        "tone",
        "tone_and_communication",
        "Tom e Comunicação",
        ENTERPRISE_TONE,
        80,
    );
    sp.place(
        "behavioral_rules",
        "behavioral_rules",
        "Regras de Comportamento",
        ENTERPRISE_BEHAVIORAL_RULES,
        70,
    );
    sp.place(
        "refusal_policy",
        "refusal_policy",
        "Política de Recusa",
        ENTERPRISE_REFUSAL_POLICY,
        60,
    );
    sp.place(
        "knowledge_limits",
        "knowledge_limitations",
        "Limitações de Conhecimento",
        ENTERPRISE_KNOWLEDGE_LIMITS,
        50,
    );
    sp.place(
        "output_format",
        "output_format",
        "Formato de Saída",
        ENTERPRISE_OUTPUT_FORMAT,
        40,
    );
    assert(sp.contents() =~= enterprise_sections(company@));
    sp
}

/// The template with the least instructions.
pub fn build_minimal(company: &str) -> (sp: SystemPrompt)
    ensures
        sp.is_template(
            company@ + " — Assistente Mínimo"@,
            "System prompt mínimo — identidade e regras básicas"@,
            "minimal_assistant"@,
            "nodestor-local"@,
            None::<u32>,
            minimal_sections(company@),
        ),
{
    let mut name = company.to_string();
    name.append(" — Assistente Mínimo");
    let mut sp = SystemPrompt::new(
        name.as_str(),
        "System prompt mínimo — identidade e regras básicas",
        "minimal_assistant",
    );
    let mut text = MINIMAL_IDENTITY_A.to_string();
    text.append(company);
    text.append(MINIMAL_IDENTITY_B);
    sp.place(
        "identity",
        "",
        "Identidade",
        text.as_str(),
        100,
    );
    sp.place(
        "rules",
        "",
        "Regras",
        MINIMAL_RULES,
        90,
    );
    assert(sp.contents() =~= minimal_sections(company@));
    sp
}

/// The template of a software engineer.
pub fn build_technical(company: &str) -> (sp: SystemPrompt)
    ensures
        sp.is_template(
            company@ + " — Engenheiro de Software"@,
            "System prompt para assistente técnico de engenharia de software"@,
            "technical_engineering"@,
            "nodestor-local"@,
            None::<u32>,
            technical_sections(company@),
        ),
{
    let mut name = company.to_string();
    name.append(" — Engenheiro de Software");
    let mut sp = SystemPrompt::new(
        name.as_str(),
        "System prompt para assistente técnico de engenharia de software",
        "technical_engineering",
    );
    let mut text = TECHNICAL_IDENTITY_A.to_string();
    text.append(company);
    text.append(TECHNICAL_IDENTITY_B);
    sp.place(
        "identity",
        "engineer_identity",
        "Identidade do Engenheiro",
        text.as_str(),
        100,
    );
    sp.place(
        "code_quality",
        "code_quality_standards",
        "Padrões de Qualidade de Código",
        TECHNICAL_CODE_QUALITY,
        90,
    );
    sp.place(
        "reasoning",
        "technical_reasoning",
        "Raciocínio Técnico",
        TECHNICAL_REASONING,
        80,
    );
    sp.place(
        "output",
        "technical_output_format",
        "Formato de Saída Técnica",
        TECHNICAL_OUTPUT,
        70,
    );
    assert(sp.contents() =~= technical_sections(company@));
    sp
}

/// The template of an agent for customers.
pub fn build_customer_support(company: &str) -> (sp: SystemPrompt)
    ensures
        sp.is_template(
            company@ + " — Suporte ao Cliente"@,
            "System prompt para agente de suporte ao cliente"@,
            "customer_support"@,
            "nodestor-local"@,
            None::<u32>,
            customer_support_sections(company@),
        ),
{
    let mut name = company.to_string();
    name.append(" — Suporte ao Cliente");
    let mut sp = SystemPrompt::new(
        name.as_str(),
        "System prompt para agente de suporte ao cliente",
        "customer_support",
    );
    let mut text = CUSTOMER_SUPPORT_IDENTITY_A.to_string();
    text.append(company);
    text.append(CUSTOMER_SUPPORT_IDENTITY_B);
    sp.place(
        "identity",
        "agent_identity",
        "Identidade do Agente",
        text.as_str(),
        100,
    );
    sp.place(
        "empathy",
        "customer_empathy",
        "Empatia e Comunicação",
        CUSTOMER_SUPPORT_EMPATHY,
        90,
    );
    sp.place(
        "escalation",
        "escalation_policy",
        "Política de Escalação",
        CUSTOMER_SUPPORT_ESCALATION,
        80,
    );
    let mut text = CUSTOMER_SUPPORT_SCOPE_A.to_string();
    text.append(company);
    text.append(CUSTOMER_SUPPORT_SCOPE_B);
    sp.place(
        "scope",
        "support_scope",
        "Escopo de Suporte",
        text.as_str(),
        70,
    );
    assert(sp.contents() =~= customer_support_sections(company@));
    sp
}

/// The template of a writer.
pub fn build_creative(company: &str) -> (sp: SystemPrompt)
    ensures
        sp.is_template(
            company@ + " — Assistente Criativo"@,
            "System prompt para assistente de escrita criativa e geração de conteúdo"@,
            "creative_writing"@,
            "nodestor-local"@,
            None::<u32>,
            creative_sections(company@),
        ),
{
    let mut name = company.to_string();
    name.append(" — Assistente Criativo");
    let mut sp = SystemPrompt::new(
        name.as_str(),
        "System prompt para assistente de escrita criativa e geração de conteúdo",
        "creative_writing",
    );
    let mut text = CREATIVE_IDENTITY_A.to_string();
    text.append(company);
    text.append(CREATIVE_IDENTITY_B);
    sp.place(
        "identity",
        "creative_identity",
        "Persona Criativa",
        text.as_str(),
        100,
    );
    sp.place(
        "style_guide",
        "creative_style_guide",
        "Guia de Estilo Criativo",
        CREATIVE_STYLE_GUIDE,
        90,
    );
    sp.place(
        "content_policy",
        "content_boundaries",
        "Limites de Conteúdo",
        CREATIVE_CONTENT_POLICY,
        70,
    );
    assert(sp.contents() =~= creative_sections(company@));
    sp
}

/// The template of an analyst of security.
pub fn build_security(company: &str) -> (sp: SystemPrompt)
    ensures
        sp.is_template(
            company@ + " — Analista de Segurança"@,
            "System prompt para análise de segurança em contexto autorizado"@,
            "security_analysis"@,
            "nodestor-local"@,
            None::<u32>,
            security_sections(company@),
        ),
{
    let mut name = company.to_string();
    name.append(" — Analista de Segurança");
    let mut sp = SystemPrompt::new(
        name.as_str(),
        "System prompt para análise de segurança em contexto autorizado",
        "security_analysis",
    );
    let mut text = SECURITY_IDENTITY_A.to_string();
    text.append(company);
    text.append(SECURITY_IDENTITY_B);
    sp.place(
        "identity",
        "security_analyst_identity",
        "Identidade do Analista",
        text.as_str(),
        100,
    );
    sp.place(
        "authorization",
        "authorization_context",
        "Contexto de Autorização",
        SECURITY_AUTHORIZATION,
        90,
    );
    sp.place(
        "framework",
        "security_analysis_framework",
        "Framework de Análise",
        SECURITY_FRAMEWORK,
        80,
    );
    sp.place(
        "reporting",
        "security_finding_reporting",
        "Relatório de Findings",
        SECURITY_REPORTING,
        70,
    );
    sp.place(
        "limitations",
        "analysis_limitations",
        "Limitações da Análise",
        SECURITY_LIMITATIONS,
        50,
    );
    assert(sp.contents() =~= security_sections(company@));
    sp
}

/// How the universal template names the company, if it is known.
pub open spec fn company_clause(company: Seq<char>) -> Seq<char> {
    if company == "[EMPRESA]"@ {
        Seq::empty()
    } else {
        " de "@ + company
    }
}

/// The name of the universal template.
pub open spec fn universal_name(company: Seq<char>) -> Seq<char> {
    "Nível Fable 5"@ + (if company == "[EMPRESA]"@ {
        " — "@
    } else {
        " ("@ + company + ") — "@
    }) + "— Inteligência de Elite"@
}

/// The universal template.
pub fn build_fable5_level(company: &str) -> (sp: SystemPrompt)
    ensures
        sp.is_template(
            universal_name(company@),
            FABLE5_LEVEL_DESCRIPTION@,
            "elite_universal"@,
            "universal"@,
            Some(180_000u32),
            fable5_level_sections(company_clause(company@)),
        ),
{
    let unknown: bool = same(company, "[EMPRESA]");
    let mut clause = String::new();
    let mut name = "Nível Fable 5".to_string();
    if unknown {
        name.append(" — ");
    } else {
        clause.append(" de ");
        clause.append(company);
        name.append(" (");
        name.append(company);
        name.append(") — ");
    }
    name.append("— Inteligência de Elite");
    proof {
        assert(clause@ =~= company_clause(company@));
        assert(name@ =~= universal_name(company@));
    }
    let mut sp = SystemPrompt::new(name.as_str(), FABLE5_LEVEL_DESCRIPTION, "elite_universal");
    sp.meta.target_model = "universal".to_string();
    sp.meta.token_budget = Some(180_000);
    let mut text = FABLE5_LEVEL_IDENTITY_A.to_string();
    text.append(clause.as_str());
    text.append(FABLE5_LEVEL_IDENTITY_B);
    sp.place(
        "identity",
        "ai_identity",
        "Identidade e Capacidades",
        text.as_str(),
        100,
    );
    sp.place(
        "reasoning",
        "reasoning_protocol",
        "Protocolo de Raciocínio",
        FABLE5_LEVEL_REASONING,
        90,
    );
    sp.place(
        "tone",
        "tone_and_communication",
        "Tom e Comunicação",
        FABLE5_LEVEL_TONE,
        80,
    );
    sp.place(
        "epistemic",
        "epistemic_standards",
        "Padrões Epistêmicos",
        FABLE5_LEVEL_EPISTEMIC,
        70,
    );
    sp.place(
        "output_quality",
        "output_quality",
        "Qualidade de Saída",
        FABLE5_LEVEL_OUTPUT_QUALITY,
        60,
    );
    sp.place(
        "creative",
        "creative_engagement",
        "Engajamento Criativo",
        FABLE5_LEVEL_CREATIVE,
        50,
    );
    sp.place(
        "wellbeing",
        "user_wellbeing",
        "Cuidado com o Usuário",
        FABLE5_LEVEL_WELLBEING,
        40,
    );
    sp.place(
        "mistakes",
        "responding_to_mistakes",
        "Resposta a Erros e Críticas",
        FABLE5_LEVEL_MISTAKES,
        30,
    );
    assert(sp.contents() =~= fable5_level_sections(clause@));
    sp
}

// ─── Paths ───────────────────────────────────────────────────────────────────

/// Where a prompt of this name is kept.
pub open spec fn prompt_path(home: Seq<char>, name: Seq<char>) -> Seq<char> {
    joined(joined(home_of(home), "prompts"@), name + ".sp"@)
}

/// Where a prompt of this name is kept. A name that begins at the root stands for
/// itself, with the ending of prompts.
pub fn default_prompt_path(name: &str, home: &str) -> (s: String)
    ensures
        s@ == prompt_path(home@, name@),
{
    let base = nodestor_home(home);
    let dir = join_path(base.as_str(), "prompts");
    let mut file = name.to_string();
    file.append(".sp");
    join_path(dir.as_str(), file.as_str())
}

/// A text is a path and not the name of a prompt.
pub open spec fn is_path(s: Seq<char>) -> bool {
    contains(s, "/"@) || contains(s, "\\"@) || ends_with(s, ".sp"@)
}

/// The path of a prompt: a path stands for itself, a name for the file where the
/// prompt of that name is kept.
pub fn resolve_prompt_path(name_or_path: &str, home: &str) -> (s: String)
    ensures
        s@ == if is_path(name_or_path@) {
            name_or_path@
        } else {
            prompt_path(home@, name_or_path@)
        },
{
    if check_contains(name_or_path, "/") || check_contains(name_or_path, "\\") || check_ends_with(
        name_or_path,
        ".sp",
    ) {
        name_or_path.to_string()
    } else {
        default_prompt_path(name_or_path, home)
    }
}

// ─── Dates ───────────────────────────────────────────────────────────────────

/// A year is a leap year.
pub open spec fn leap(y: int) -> bool {
    (y % 4 == 0 && y % 100 != 0) || y % 400 == 0
}

/// Whether a year is a leap year.
pub fn is_leap_year(y: u32) -> (b: bool)
    ensures
        b == leap(y as int),
{
    (y % 4 == 0 && y % 100 != 0) || y % 400 == 0
}

/// The days of a month.
pub open spec fn month_length(y: int, m: int) -> int {
    if m == 2 {
        if leap(y) {
            29
        } else {
            28
        }
    } else if m == 4 || m == 6 || m == 9 || m == 11 {
        30
    } else {
        31
    }
}

/// The days of a year before a month.
pub open spec fn days_before_month(y: int, m: int) -> int
    decreases m,
{
    if m <= 1 {
        0
    } else {
        days_before_month(y, m - 1) + month_length(y, m - 1)
    }
}

/// The days of a year.
pub open spec fn year_length(y: int) -> int {
    if leap(y) {
        366
    } else {
        365
    }
}

/// The days from the beginning of 1970 to that of a year.
pub open spec fn days_before_year(y: int) -> int
    decreases y,
{
    if y <= 1970 {
        0
    } else {
        days_before_year(y - 1) + year_length(y - 1)
    }
}

/// Day `d` of month `m` of year `y` begins `days` days after 1970 does.
pub open spec fn is_date(days: int, y: int, m: int, d: int) -> bool {
    &&& 1970 <= y
    &&& 1 <= m <= 12
    &&& 1 <= d <= month_length(y, m)
    &&& days == days_before_year(y) + days_before_month(y, m) + d - 1
}

/// A date as text.
pub open spec fn date_text(y: nat, m: nat, d: nat) -> Seq<char> {
    zero_padded(dec(y), 4) + "-"@ + zero_padded(dec(m), 2) + "-"@ + zero_padded(dec(d), 2)
}

/// The days in a number of seconds, counted in 32 bits.
pub open spec fn days_of(secs: u64) -> int {
    ((secs / 86400) as u32) as int
}

/// The text is the date `secs` seconds after the beginning of 1970.
pub open spec fn dates_to(secs: u64, text: Seq<char>) -> bool {
    exists|y: nat, m: nat, d: nat|
        is_date(days_of(secs), y as int, m as int, d as int) && text == #[trigger] date_text(
            y,
            m,
            d,
        )
}

/// The text is the date of some time since 1970.
pub open spec fn is_a_date(text: Seq<char>) -> bool {
    exists|secs: u64| #[trigger] dates_to(secs, text)
}

proof fn months_fill_the_year(y: int)
    ensures
        days_before_month(y, 13) == year_length(y),
{
    reveal_with_fuel(days_before_month, 14);
}

proof fn months_grow(y: int, m: int, n: int)
    requires
        1 <= m < n,
    ensures
        days_before_month(y, m) + month_length(y, m) <= days_before_month(y, n),
    decreases n,
{
    if m < n - 1 {
        months_grow(y, m, n - 1);
    }
}

proof fn years_grow(y: int, z: int)
    requires
        1970 <= y < z,
    ensures
        days_before_year(y) + year_length(y) <= days_before_year(z),
    decreases z,
{
    if y < z - 1 {
        years_grow(y, z - 1);
    }
}

/// A day has one date.
pub proof fn dates_are_unique(days: int, y: int, m: int, d: int, y2: int, m2: int, d2: int)
    requires
        is_date(days, y, m, d),
        is_date(days, y2, m2, d2),
    ensures
        y == y2 && m == m2 && d == d2,
{
    months_fill_the_year(y);
    months_fill_the_year(y2);
    months_grow(y, m, 13);
    months_grow(y2, m2, 13);
    starts_are_not_negative(y, m);
    starts_are_not_negative(y2, m2);
    if y < y2 {
        years_grow(y, y2);
    } else if y2 < y {
        years_grow(y2, y);
    } else if m < m2 {
        months_grow(y, m, m2);
    } else if m2 < m {
        months_grow(y, m2, m);
    }
}

proof fn starts_are_not_negative(y: int, m: int)
    ensures
        days_before_month(y, m) >= 0,
    decreases m,
{
    if m > 1 {
        starts_are_not_negative(y, m - 1);
    }
}

fn length_of_month(y: u32, m: u32) -> (n: u32)
    ensures
        n == month_length(y as int, m as int),
{
    if m == 2 {
        if is_leap_year(y) {
            29
        } else {
            28
        }
    } else if m == 4 || m == 6 || m == 9 || m == 11 {
        30
    } else {
        31
    }
}

/// The date `secs` seconds after the beginning of 1970.
pub fn unix_to_date(secs: u64) -> (s: String)
    ensures
        dates_to(secs, s@),
{
    let total: u32 = (secs / 86400) as u32;
    let mut days: u32 = total;
    let mut year: u32 = 1970;
    loop
        invariant_except_break
            1970 <= year,
            total == days_before_year(year as int) + days,
            365 * (year - 1970) + days <= total,
        ensures
            1970 <= year,
            total == days_before_year(year as int) + days,
            days < year_length(year as int),
        decreases days,
    {
        let length: u32 = if is_leap_year(year) {
            366
        } else {
            365
        };
        if days < length {
            break;
        }
        days = days - length;
        year = year + 1;
    }
    proof {
        months_fill_the_year(year as int);
    }
    let ghost rest = days;
    let mut month: u32 = 1;
    while month < 12 && days >= length_of_month(year, month)
        invariant
            1 <= month <= 12,
            rest == days_before_month(year as int, month as int) + days,
        decreases 12 - month,
    {
        days = days - length_of_month(year, month);
        month = month + 1;
    }
    proof {
        if month == 12 {
            assert(days_before_month(year as int, 13) == days_before_month(year as int, 12)
                + month_length(year as int, 12));
        }
        assert(is_date(days_of(secs), year as int, month as int, days + 1));
    }
    let mut s = String::new();
    push_padded(&mut s, year as u64, 4);
    s.append("-");
    push_padded(&mut s, month as u64, 2);
    s.append("-");
    push_padded(&mut s, days as u64 + 1, 2);
    assert(s@ =~= date_text(year as nat, month as nat, (days + 1) as nat));
    s
}

/// The date of today.
pub fn current_date() -> (s: String)
    ensures
        is_a_date(s@),
{
    let secs: u64 = match since_epoch(now()) {
        Some(d) => whole_seconds(d),
        None => 0,
    };
    unix_to_date(secs)
}

// ─── Sections and dates ──────────────────────────────────────────────────────

/// What a prompt says is what its enabled sections say, one after the other in the order
/// given: none of them is left out and no other comes in.
pub proof fn every_enabled_section_is_said(
    sections: Seq<PromptSection>,
    order: Seq<usize>,
    n: int,
)
    requires
        0 <= n <= order.len(),
    ensures
        enabled_texts(sections, order, n) == order.take(n).filter(
            |i: usize| sections[i as int].enabled,
        ).map_values(|i: usize| sections[i as int].text()),
    decreases n,
{
    reveal(Seq::filter);
    let on = |i: usize| sections[i as int].enabled;
    let text = |i: usize| sections[i as int].text();
    if n > 0 {
        every_enabled_section_is_said(sections, order, n - 1);
        assert(order.take(n).drop_last() =~= order.take(n - 1));
    }
    assert(enabled_texts(sections, order, n) =~= order.take(n).filter(on).map_values(text));
}

/// Sections come by priority, the highest first, and those of one priority in the order in
/// which they stand in the prompt.
pub proof fn sections_come_by_priority(
    sections: Seq<PromptSection>,
    order: Seq<usize>,
    a: int,
    b: int,
)
    requires
        is_ranking(priorities(sections), order),
        0 <= a < b < order.len(),
    ensures
        order[a] < sections.len(),
        order[b] < sections.len(),
        sections[order[a] as int].priority >= sections[order[b] as int].priority,
        sections[order[a] as int].priority == sections[order[b] as int].priority ==> order[a]
            < order[b],
{
    let keys = priorities(sections);
    assert(crate::ranking::precedes(keys, order[a] as int, order[b] as int));
    assert(keys[order[a] as int] == sections[order[a] as int].priority as i128);
    assert(keys[order[b] as int] == sections[order[b] as int].priority as i128);
}

/// The enabled sections are counted, each once.
pub proof fn enabled_sections_are_counted(sections: Seq<PromptSection>, n: int)
    requires
        0 <= n <= sections.len(),
    ensures
        enabled_count(sections, n) == sections.take(n).filter(|s: PromptSection| s.enabled).len(),
    decreases n,
{
    reveal(Seq::filter);
    if n > 0 {
        enabled_sections_are_counted(sections, n - 1);
        assert(sections.take(n).drop_last() =~= sections.take(n - 1));
    }
}

/// To remove a section leaves every other, in their order.
pub proof fn other_sections_stay(sections: Seq<PromptSection>, id: Seq<char>, n: int)
    requires
        0 <= n <= sections.len(),
    ensures
        without_id(sections, id, n) == sections.take(n).filter(|s: PromptSection| s.id@ != id),
    decreases n,
{
    reveal(Seq::filter);
    if n > 0 {
        other_sections_stay(sections, id, n - 1);
        assert(sections.take(n).drop_last() =~= sections.take(n - 1));
    }
}

/// The section that is found is the first with the id; where none has it, none is found.
pub proof fn first_section_of_an_id_is_found(
    sections: Seq<PromptSection>,
    id: Seq<char>,
    from: int,
)
    requires
        0 <= from <= sections.len(),
    ensures
        match place_of(sections, id, from) {
            Some(i) => from <= i < sections.len() && sections[i].id@ == id && forall|j: int|
                from <= j < i ==> (#[trigger] sections[j]).id@ != id,
            None => forall|j: int| from <= j < sections.len() ==> (#[trigger] sections[j]).id@ != id,
        },
    decreases sections.len() - from,
{
    if from < sections.len() && sections[from].id@ != id {
        first_section_of_an_id_is_found(sections, id, from + 1);
    }
}

/// The days before a year are 365 for each year since 1970, and one more for each leap year:
/// every fourth year, but of the full centuries only every fourth.
pub proof fn years_have_their_days(y: int)
    requires
        1970 <= y,
    ensures
        days_before_year(y) == 365 * (y - 1970) + ((y - 1) / 4 - 492) - ((y - 1) / 100 - 19) + ((y
            - 1) / 400 - 4),
    decreases y,
{
    if y > 1970 {
        years_have_their_days(y - 1);
    }
}

/// The dates begin with the first of January 1970, and each day is followed by the next: of
/// the same month where it has one more, the first of the next month where not, and the
/// first of January behind the last of December.
pub proof fn days_follow_one_another(days: int, y: int, m: int, d: int)
    requires
        is_date(days, y, m, d),
    ensures
        is_date(0, 1970, 1, 1),
        d >= 28 || is_date(days + 1, y, m, d + 1),
        d == 28 && (m != 2 || y % 4 == 0 && (y % 100 != 0 || y % 400 == 0)) ==> is_date(
            days + 1,
            y,
            m,
            29,
        ),
        d == 28 && m == 2 && (y % 4 != 0 || y % 100 == 0 && y % 400 != 0) ==> is_date(
            days + 1,
            y,
            3,
            1,
        ),
        d == 29 && m != 2 ==> is_date(days + 1, y, m, 30),
        d == 29 && m == 2 ==> is_date(days + 1, y, 3, 1),
        d == 30 && (m == 4 || m == 6 || m == 9 || m == 11) ==> is_date(days + 1, y, m + 1, 1),
        d == 30 && !(m == 4 || m == 6 || m == 9 || m == 11) ==> is_date(days + 1, y, m, 31),
        d == 31 && m < 12 ==> is_date(days + 1, y, m + 1, 1),
        d == 31 && m == 12 ==> is_date(days + 1, y + 1, 1, 1),
{
    reveal_with_fuel(days_before_month, 13);
}

} // verus!
