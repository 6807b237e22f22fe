//! Tools that the model calls by tags in its text: definitions, kits, finding
//! calls and running them.

use vstd::prelude::*;

use crate::clock::{elapsed, instant, whole_milliseconds};
use crate::named_map::NamedMap;
use crate::text::{
    alphanumeric, find_position, first_occurrence, from_chars, occurs_at, position, starts_with,
    to_chars, trim, trim_range, trimmed, views,
};

verus! {

/// A tool.
#[derive(Debug)]
pub struct ToolDef {
    /// The tag by which the model calls it.
    pub tag: String,
    pub description: String,
    /// When to use it.
    pub system_hint: String,
}

impl ToolDef {
    /// The entry of the tool in a system prompt.
    pub open spec fn entry(&self) -> Seq<char> {
        "• <"@ + self.tag@ + "> — "@ + self.description@ + "\n  Quando usar: "@ + self.system_hint@
            + "\n"@
    }

    fn make(tag: &str, description: &str, system_hint: &str) -> (t: ToolDef)
        ensures
            t.tag@ == tag@,
            t.description@ == description@,
            t.system_hint@ == system_hint@,
    {
        ToolDef {
            tag: tag.to_string(),
            description: description.to_string(),
            system_hint: system_hint.to_string(),
        }
    }
}

/// Tools that go together, with a prompt for the model.
#[derive(Debug)]
pub struct ToolKit {
    pub name: String,
    pub version: String,
    pub description: String,
    pub author: Option<String>,
    pub tools: Vec<ToolDef>,
    pub system_prompt: Option<String>,
}

/// The entries of the first `n` tools.
pub open spec fn entries(tools: Seq<ToolDef>, n: int) -> Seq<char>
    decreases n,
{
    if n <= 0 {
        Seq::empty()
    } else {
        entries(tools, n - 1) + tools[n - 1].entry()
    }
}

/// The tags of tools.
pub open spec fn tags(tools: Seq<ToolDef>) -> Seq<Seq<char>> {
    tools.map_values(|t: ToolDef| t.tag@)
}

pub const SCIENCE_PROMPT: &'static str = "Você é um cientista autônomo de elite com acesso a ferramentas de pesquisa.\nQuando precisar de dados externos, use: <call_vector_db>sua query</call_vector_db>\nPara cruzar conceitos de domínios diferentes: <call_dream>domínio1 + domínio2</call_dream>\nPara reflexão profunda: <call_think>seu raciocínio interno</call_think>\nPara validar hipóteses: <call_hypothesis>hipótese formal</call_hypothesis>\nRaciocine em ciclos. Cada descoberta alimenta a próxima pergunta.";

pub const CODING_PROMPT: &'static str = "Você é um engenheiro de software sênior. Antes de implementar, sempre analise:\n<call_think>decomposição do problema</call_think>\nPara buscar exemplos ou docs: <call_vector_db>query</call_vector_db>";

impl ToolKit {
    /// The kit for research across domains.
    pub fn builtin_science() -> (k: ToolKit)
        ensures
            k.name@ == "science"@,
            k.version@ == "1.0"@,
            k.description@ == "Pesquisa científica cross-domain: física, biologia, matemática"@,
            k.author is Some,
            k.author->0@ == "NodeStor Community"@,
            tags(k.tools@) == seq![
                "call_vector_db"@,
                "call_dream"@,
                "call_think"@,
                "call_hypothesis"@,
            ],
            k.tools@[0].description@
                == "Busca semântica no banco vetorial (papers, fatos, memórias)"@,
            k.tools@[0].system_hint@
                == "Use para recuperar informações factuais do banco de conhecimento antes de responder."@,
            k.tools@[1].description@
                == "Ativa o motor DAVI para gerar hipóteses cross-domain inéditas"@,
            k.tools@[1].system_hint@
                == "Use para misturar conceitos de domínios opostos (ex: física quântica + genética)."@,
            k.tools@[2].description@ == "Força um passo de reflexão antes de concluir"@,
            k.tools@[2].system_hint@
                == "Use quando precisar revisar a cadeia de raciocínio antes de dar a resposta final."@,
            k.tools@[3].description@ == "Gera e valida uma hipótese científica via Nash Tribunal"@,
            k.tools@[3].system_hint@
                == "Use para propor e testar formalmente uma hipótese contra evidências disponíveis."@,
            k.system_prompt is Some,
            k.system_prompt->0@ == SCIENCE_PROMPT@,
    {
        let mut tools: Vec<ToolDef> = Vec::new();
        tools.push(
            ToolDef::make(
                "call_vector_db",
                "Busca semântica no banco vetorial (papers, fatos, memórias)",
                "Use para recuperar informações factuais do banco de conhecimento antes de responder.",
            ),
        );
        tools.push(
            ToolDef::make(
                "call_dream",
                "Ativa o motor DAVI para gerar hipóteses cross-domain inéditas",
                "Use para misturar conceitos de domínios opostos (ex: física quântica + genética).",
            ),
        );
        tools.push(
            ToolDef::make(
                "call_think",
                "Força um passo de reflexão antes de concluir",
                "Use quando precisar revisar a cadeia de raciocínio antes de dar a resposta final.",
            ),
        );
        tools.push(
            ToolDef::make(
                "call_hypothesis",
                "Gera e valida uma hipótese científica via Nash Tribunal",
                "Use para propor e testar formalmente uma hipótese contra evidências disponíveis.",
            ),
        );
        assert(tags(tools@) =~= seq![
            "call_vector_db"@,
            "call_dream"@,
            "call_think"@,
            "call_hypothesis"@,
        ]);
        ToolKit {
            name: "science".to_string(),
            version: "1.0".to_string(),
            description: "Pesquisa científica cross-domain: física, biologia, matemática".to_string(),
            author: Some("NodeStor Community".to_string()),
            tools,
            system_prompt: Some(SCIENCE_PROMPT.to_string()),
        }
    }

    /// The kit for programming.
    pub fn builtin_coding() -> (k: ToolKit)
        ensures
            k.name@ == "coding"@,
            k.version@ == "1.0"@,
            k.description@ == "Assistente de programação com busca de docs e análise"@,
            k.author is Some,
            k.author->0@ == "NodeStor Community"@,
            tags(k.tools@) == seq!["call_vector_db"@, "call_think"@],
            k.tools@[0].description@ == "Busca na documentação e base de código indexada"@,
            k.tools@[0].system_hint@
                == "Use para buscar exemplos de código, docs de API ou snippets anteriores."@,
            k.tools@[1].description@ == "Análise step-by-step do problema antes de codar"@,
            k.tools@[1].system_hint@
                == "Use para decompor problemas complexos antes de escrever código."@,
            k.system_prompt is Some,
            k.system_prompt->0@ == CODING_PROMPT@,
    {
        let mut tools: Vec<ToolDef> = Vec::new();
        tools.push(
            ToolDef::make(
                "call_vector_db",
                "Busca na documentação e base de código indexada",
                "Use para buscar exemplos de código, docs de API ou snippets anteriores.",
            ),
        );
        tools.push(
            ToolDef::make(
                "call_think",
                "Análise step-by-step do problema antes de codar",
                "Use para decompor problemas complexos antes de escrever código.",
            ),
        );
        assert(tags(tools@) =~= seq!["call_vector_db"@, "call_think"@]);
        ToolKit {
            name: "coding".to_string(),
            version: "1.0".to_string(),
            description: "Assistente de programação com busca de docs e análise".to_string(),
            author: Some("NodeStor Community".to_string()),
            tools,
            system_prompt: Some(CODING_PROMPT.to_string()),
        }
    }

    /// The kit's prompt and tools, as a block of a system prompt.
    pub fn build_system_block(&self) -> (s: String)
        ensures
            s@ == (match self.system_prompt {
                Some(p) => p@ + "\n\n"@,
                None => Seq::empty(),
            }) + "=== Kit de Ferramentas: "@ + self.name@ + " v"@ + self.version@ + " ===\n"@
                + entries(self.tools@, self.tools@.len() as int),
    {
        let mut s = String::new();
        match &self.system_prompt {
            Some(p) => {
                s.append(p.as_str());
                s.append("\n\n");
                assert(s@ =~= p@ + "\n\n"@);
            },
            None => {},
        }
        s.append("=== Kit de Ferramentas: ");
        s.append(self.name.as_str());
        s.append(" v");
        s.append(self.version.as_str());
        s.append(" ===\n");
        let ghost head = s@;
        let mut i: usize = 0;
        assert(head + entries(self.tools@, 0) =~= head);
        while i < self.tools.len()
            invariant
                i <= self.tools@.len(),
                s@ == head + entries(self.tools@, i as int),
            decreases self.tools@.len() - i,
        {
            let t = &self.tools[i];
            let ghost before = s@;
            s.append("• <");
            s.append(t.tag.as_str());
            s.append("> — ");
            s.append(t.description.as_str());
            s.append("\n  Quando usar: ");
            s.append(t.system_hint.as_str());
            s.append("\n");
            assert(s@ =~= before + t.entry());
            i = i + 1;
            assert(s@ =~= head + entries(self.tools@, i as int));
        }
        s
    }
}

/// What a tool answered.
#[derive(Debug)]
pub struct ToolResult {
    pub tag: String,
    pub query: String,
    pub response: String,
    pub success: bool,
    pub latency_ms: u64,
}

impl ToolResult {
    /// The answer as a block of the model's context.
    pub fn to_context_block(&self) -> (s: String)
        ensures
            s@ == "<tool_response tool=\""@ + self.tag@ + "\" success=\""@ + (if self.success {
                "true"@
            } else {
                "false"@
            }) + "\">\n"@ + trim(self.response@) + "\n</tool_response>"@,
    {
        let mut s = "<tool_response tool=\"".to_string();
        s.append(self.tag.as_str());
        s.append("\" success=\"");
        if self.success {
            s.append("true");
        } else {
            s.append("false");
        }
        s.append("\">\n");
        let body = trimmed(self.response.as_str());
        s.append(body.as_str());
        s.append("\n</tool_response>");
        s
    }
}

// ─── Calls in text ───────────────────────────────────────────────────────────

/// A character that a tag may hold.
pub open spec fn tag_char(c: char) -> bool {
    alphanumeric(c) || c == '_'
}

/// A text is the tag of a call.
pub open spec fn is_call_tag(tag: Seq<char>) -> bool {
    starts_with(tag, "call_"@) && forall|i: int| 0 <= i < tag.len() ==> tag_char(#[trigger] tag[i])
}

/// The closing tag.
pub open spec fn closing(tag: Seq<char>) -> Seq<char> {
    "</"@ + tag + ">"@
}

/// The call that begins with the `<` at `open`: what stands up to the next `>` has
/// to be the tag of a call; what stands between it and its closing tag, trimmed,
/// is the query.
pub open spec fn call_at(text: Seq<char>, open: int) -> Option<(Seq<char>, Seq<char>)> {
    match position(text, seq!['>'], open + 1) {
        None => None,
        Some(end) => {
            let tag = text.subrange(open + 1, end);
            if !is_call_tag(tag) || end + 1 >= text.len() {
                None
            } else {
                match position(text, closing(tag), end + 1) {
                    None => None,
                    Some(close) => Some((tag, trim(text.subrange(end + 1, close)))),
                }
            }
        },
    }
}

/// The first call at or after `from`; everything else is passed over.
pub open spec fn call_from(text: Seq<char>, from: int) -> Option<(Seq<char>, Seq<char>)>
    decreases text.len() - from,
{
    if from < 0 || from >= text.len() {
        None
    } else if text[from] == '<' && call_at(text, from) is Some {
        call_at(text, from)
    } else {
        call_from(text, from + 1)
    }
}

/// The first call in a text.
pub open spec fn call_in(text: Seq<char>) -> Option<(Seq<char>, Seq<char>)> {
    call_from(text, 0)
}

/// The first call is one, and none begins before it. Where there is none, none
/// begins anywhere.
pub proof fn first_call_is_first(text: Seq<char>, from: int)
    requires
        0 <= from <= text.len(),
    ensures
        match call_from(text, from) {
            Some(c) => exists|i: int| #[trigger]
                begins_call(text, i) && from <= i && call_at(text, i) == Some(c) && forall|j: int|
                    from <= j < i ==> !#[trigger] begins_call(text, j),
            None => forall|j: int| from <= j ==> !#[trigger] begins_call(text, j),
        },
    decreases text.len() - from,
{
    if from < text.len() {
        if text[from] == '<' && call_at(text, from) is Some {
            assert(begins_call(text, from));
        } else {
            first_call_is_first(text, from + 1);
            assert(!begins_call(text, from));
            match call_from(text, from + 1) {
                Some(c) => {
                    let i = choose|i: int| #[trigger]
                        begins_call(text, i) && from + 1 <= i && call_at(text, i) == Some(c)
                            && forall|j: int| from + 1 <= j < i ==> !#[trigger] begins_call(text, j);
                    assert(begins_call(text, i));
                    assert forall|j: int| from <= j < i implies !#[trigger] begins_call(
                        text,
                        j,
                    ) by {}
                },
                None => {},
            }
        }
    }
}

/// A call begins at `i`.
pub open spec fn begins_call(text: Seq<char>, i: int) -> bool {
    0 <= i < text.len() && text[i] == '<' && call_at(text, i) is Some
}

fn check_call_tag(v: &Vec<char>, from: usize, to: usize) -> (b: bool)
    requires
        from <= to <= v@.len(),
    ensures
        b == is_call_tag(v@.subrange(from as int, to as int)),
{
    let ghost tag = v@.subrange(from as int, to as int);
    let prefix = to_chars("call_");
    let n: usize = prefix.len();
    if to - from < n {
        return false;
    }
    let mut k: usize = 0;
    while k < n
        invariant
            n == prefix@.len(),
            prefix@ == "call_"@,
            from + n <= to <= v.len(),
            k <= n,
            tag == v@.subrange(from as int, to as int),
            forall|j: int| 0 <= j < k ==> tag[j] == prefix@[j],
        decreases n - k,
    {
        if v[from + k] != prefix[k] {
            assert(tag.subrange(0, n as int)[k as int] != prefix@[k as int]);
            return false;
        }
        k = k + 1;
    }
    assert(tag.subrange(0, n as int) =~= "call_"@);
    let mut i: usize = from;
    while i < to
        invariant
            from <= i <= to <= v@.len(),
            tag == v@.subrange(from as int, to as int),
            forall|j: int| 0 <= j < i - from ==> tag_char(#[trigger] tag[j]),
        decreases to - i,
    {
        let c: char = v[i];
        assert(tag[i - from] == c);
        if !(c.is_alphanumeric() || c == '_') {
            return false;
        }
        i = i + 1;
    }
    true
}

/// What runs a tool.
pub enum Handler<H> {
    /// A function from a query to an answer.
    Own(H),
    /// What runs the tool of a kit until something else does. It answers with what
    /// the tool is for, and the query.
    Kit { description: String },
}

/// Tools with what runs them. `H` is a function from a query to an answer.
pub struct ToolRegistry<H> {
    pub handlers: NamedMap<Handler<H>>,
    pub kit: Option<ToolKit>,
    pub invocation_count: usize,
}

/// A tool among the first `n` has this tag and this description.
pub open spec fn describes_tool(
    tools: Seq<ToolDef>,
    tag: Seq<char>,
    description: Seq<char>,
    n: int,
) -> bool {
    exists|k: int|
        0 <= k < n && (#[trigger] tools[k]).tag@ == tag && tools[k].description@ == description
}

/// What runs a tool may answer `response` to `query`.
pub open spec fn answers<H: Fn(&str) -> String>(
    h: Handler<H>,
    query: &str,
    response: String,
) -> bool {
    match h {
        Handler::Own(f) => call_ensures(f, (query,), response),
        Handler::Kit { description } => response@ == description@ + ": "@ + query@,
    }
}

/// The answer of a tool that is not registered.
pub open spec fn not_registered(tag: Seq<char>) -> Seq<char> {
    "[ferramenta '"@ + tag + "' não registrada — use `registry.register(\""@ + tag
        + "\", handler)`]"@
}

impl<H: Fn(&str) -> String> Default for ToolRegistry<H> {
    fn default() -> (r: ToolRegistry<H>)
        ensures
            r.wf(),
            r.handlers@ == Map::<Seq<char>, Handler<H>>::empty(),
            r.kit is None,
            r.invocation_count == 0,
    {
        ToolRegistry::new()
    }
}

impl<H: Fn(&str) -> String> ToolRegistry<H> {
    pub open spec fn wf(&self) -> bool {
        self.handlers.wf()
    }

    /// No tool registered.
    pub fn new() -> (r: ToolRegistry<H>)
        ensures
            r.wf(),
            r.handlers@ == Map::<Seq<char>, Handler<H>>::empty(),
            r.kit is None,
            r.invocation_count == 0,
    {
        ToolRegistry { handlers: NamedMap::new(), kit: None, invocation_count: 0 }
    }

    /// Registers what runs the tool `tag`.
    pub fn register(&mut self, tag: &str, handler: H)
        requires
            old(self).wf(),
        ensures
            final(self).wf(),
            final(self).handlers@ == old(self).handlers@.insert(tag@, Handler::Own(handler)),
            final(self).kit == old(self).kit,
            final(self).invocation_count == old(self).invocation_count,
    {
        self.handlers.insert(tag.to_string(), Handler::Own(handler));
    }

    /// Registers what searches the vector store.
    pub fn register_vector_db(&mut self, handler: H)
        requires
            old(self).wf(),
        ensures
            final(self).wf(),
            final(self).handlers@ == old(self).handlers@.insert("call_vector_db"@, Handler::Own(handler)),
            final(self).kit == old(self).kit,
            final(self).invocation_count == old(self).invocation_count,
    {
        self.register("call_vector_db", handler);
    }

    /// Registers what generates hypotheses.
    pub fn register_dream(&mut self, handler: H)
        requires
            old(self).wf(),
        ensures
            final(self).wf(),
            final(self).handlers@ == old(self).handlers@.insert("call_dream"@, Handler::Own(handler)),
            final(self).kit == old(self).kit,
            final(self).invocation_count == old(self).invocation_count,
    {
        self.register("call_dream", handler);
    }

    /// Registers what reflects.
    pub fn register_think(&mut self, handler: H)
        requires
            old(self).wf(),
        ensures
            final(self).wf(),
            final(self).handlers@ == old(self).handlers@.insert("call_think"@, Handler::Own(handler)),
            final(self).kit == old(self).kit,
            final(self).invocation_count == old(self).invocation_count,
    {
        self.register("call_think", handler);
    }

    /// The same registry with a kit. Tools of the kit that nothing runs yet are run
    /// by the kit's own handler from now on.
    pub fn with_kit(self, kit: ToolKit) -> (r: ToolRegistry<H>)
        requires
            self.wf(),
        ensures
            r.wf(),
            r.kit == Some(kit),
            r.invocation_count == self.invocation_count,
            forall|tag: Seq<char>| #[trigger]
                r.handlers@.contains_key(tag) <==> self.handlers@.contains_key(tag) || tags(
                    kit.tools@,
                ).contains(tag),
            forall|tag: Seq<char>| #[trigger]
                self.handlers@.contains_key(tag) ==> r.handlers@[tag] == self.handlers@[tag],
            forall|tag: Seq<char>|
                !self.handlers@.contains_key(tag) && #[trigger] r.handlers@.contains_key(tag) ==> (
                r.handlers@[tag] matches Handler::Kit { description } && describes_tool(
                    kit.tools@,
                    tag,
                    description@,
                    kit.tools@.len() as int,
                )),
    {
        let ghost before = self.handlers@;
        let mut handlers = self.handlers;
        let mut i: usize = 0;
        while i < kit.tools.len()
            invariant
                i <= kit.tools@.len(),
                handlers.wf(),
                forall|tag: Seq<char>| #[trigger]
                    handlers@.contains_key(tag) <==> before.contains_key(tag) || tags(
                        kit.tools@.take(i as int),
                    ).contains(tag),
                forall|tag: Seq<char>| #[trigger]
                    before.contains_key(tag) ==> handlers@[tag] == before[tag],
                forall|tag: Seq<char>|
                    !before.contains_key(tag) && #[trigger] handlers@.contains_key(tag) ==> (
                    handlers@[tag] matches Handler::Kit { description } && describes_tool(
                        kit.tools@,
                        tag,
                        description@,
                        i as int,
                    )),
            decreases kit.tools@.len() - i,
        {
            let tool = &kit.tools[i];
            let ghost tag = tool.tag@;
            let ghost h0 = handlers@;
            proof {
                let a = tags(kit.tools@.take(i as int));
                let b = tags(kit.tools@.take(i + 1));
                assert(b =~= a.push(tag));
                assert forall|x: Seq<char>| b.contains(x) <==> a.contains(x) || x == tag by {
                    if a.contains(x) {
                        let k = choose|k: int| 0 <= k < a.len() && a[k] == x;
                        assert(b[k] == x);
                    }
                    if x == tag {
                        assert(b[i as int] == x);
                    }
                    if b.contains(x) && x != tag {
                        let k = choose|k: int| 0 <= k < b.len() && b[k] == x;
                        assert(a[k] == x);
                    }
                }
            }
            if !handlers.contains_key(tool.tag.as_str()) {
                let description = tool.description.clone();
                handlers.insert(tool.tag.clone(), Handler::Kit { description });
                assert(describes_tool(kit.tools@, tag, description@, i + 1)) by {
                    assert(kit.tools@[i as int].tag@ == tag);
                }
            }
            i = i + 1;
            proof {
                assert forall|x: Seq<char>|
                    !before.contains_key(x) && #[trigger] handlers@.contains_key(x) implies (
                handlers@[x] matches Handler::Kit { description } && describes_tool(
                    kit.tools@,
                    x,
                    description@,
                    i as int,
                )) by {
                    if h0.contains_key(x) {
                        let d = h0[x]->description@;
                        assert(describes_tool(kit.tools@, x, d, i - 1));
                        let k = choose|k: int|
                            0 <= k < i - 1 && (#[trigger] kit.tools@[k]).tag@ == x
                                && kit.tools@[k].description@ == d;
                        assert(kit.tools@[k].tag@ == x);
                    }
                }
            }
        }
        assert(kit.tools@.take(i as int) =~= kit.tools@);
        ToolRegistry { handlers, kit: Some(kit), invocation_count: self.invocation_count }
    }

    fn scan_at(v: &Vec<char>, open: usize) -> (r: Option<(String, String)>)
        requires
            open < v@.len(),
        ensures
            match (r, call_at(v@, open as int)) {
                (Some(a), Some(b)) => a.0@ == b.0 && a.1@ == b.1,
                (None, None) => true,
                _ => false,
            },
    {
        let n: usize = v.len();
        assert(open < n);
        let mut gt: Vec<char> = Vec::new();
        gt.push('>');
        assert(gt@ =~= seq!['>']);
        let end: usize = match find_position(v, &gt, open + 1) {
            Some(i) => i,
            None => {
                return None;
            },
        };
        if !check_call_tag(v, open + 1, end) {
            return None;
        }
        assert(end < v.len());
        if end + 1 >= v.len() {
            return None;
        }
        let tag = from_chars(v, open + 1, end);
        let mut close_tag = "</".to_string();
        close_tag.append(tag.as_str());
        close_tag.append(">");
        let close_chars = to_chars(close_tag.as_str());
        match find_position(v, &close_chars, end + 1) {
            Some(close) => {
                let (a, b) = trim_range(v, end + 1, close);
                Some((tag, from_chars(v, a, b)))
            },
            None => None,
        }
    }

    /// The first call in a text: its tag and its query.
    pub fn scan_for_call(text: &str) -> (r: Option<(String, String)>)
        ensures
            match (r, call_in(text@)) {
                (Some(a), Some(b)) => a.0@ == b.0 && a.1@ == b.1,
                (None, None) => true,
                _ => false,
            },
    {
        let v = to_chars(text);
        let mut i: usize = 0;
        while i < v.len()
            invariant
                v@ == text@,
                i <= v@.len(),
                call_in(text@) == call_from(text@, i as int),
            decreases v@.len() - i,
        {
            if v[i] == '<' {
                match Self::scan_at(&v, i) {
                    Some(c) => {
                        return Some(c);
                    },
                    None => {},
                }
            }
            i = i + 1;
        }
        None
    }

    /// The registered tool accepts the query.
    pub open spec fn accepts(&self, tag: Seq<char>, query: &str) -> bool {
        self.handlers@.contains_key(tag) ==> match self.handlers@[tag] {
            Handler::Own(h) => call_requires(h, (query,)),
            Handler::Kit { .. } => true,
        }
    }

    /// The tool that a text calls, if it is registered, accepts the query.
    pub open spec fn accepts_call(&self, text: Seq<char>) -> bool {
        match call_in(text) {
            Some((tag, query)) => forall|q: &str| q@ == query ==> #[trigger] self.accepts(tag, q),
            None => true,
        }
    }

    /// Runs a tool. A tool that is not registered gives an answer that says so.
    pub fn invoke(&mut self, tag: &str, query: &str) -> (r: ToolResult)
        requires
            old(self).wf(),
            old(self).invocation_count < usize::MAX,
            old(self).accepts(tag@, query),
        ensures
            final(self).wf(),
            final(self).handlers == old(self).handlers,
            final(self).kit == old(self).kit,
            final(self).invocation_count == old(self).invocation_count + 1,
            r.tag@ == tag@,
            r.query@ == query@,
            r.success == old(self).handlers@.contains_key(tag@),
            r.success ==> answers(old(self).handlers@[tag@], query, r.response),
            !r.success ==> r.response@ == not_registered(tag@) && r.latency_ms == 0,
    {
        let t0 = instant();
        self.invocation_count = self.invocation_count + 1;
        match self.handlers.get(tag) {
            Some(h) => {
                let response: String = match h {
                    Handler::Own(f) => f(query),
                    Handler::Kit { description } => {
                        let mut s = description.clone();
                        s.append(": ");
                        s.append(query);
                        s
                    },
                };
                ToolResult {
                    tag: tag.to_string(),
                    query: query.to_string(),
                    response,
                    success: true,
                    latency_ms: whole_milliseconds(elapsed(t0)),
                }
            },
            None => {
                let mut m = "[ferramenta '".to_string();
                m.append(tag);
                m.append("' não registrada — use `registry.register(\"");
                m.append(tag);
                m.append("\", handler)`]");
                ToolResult {
                    tag: tag.to_string(),
                    query: query.to_string(),
                    response: m,
                    success: false,
                    latency_ms: 0,
                }
            },
        }
    }

    /// Runs the first call in a text, if there is one.
    pub fn try_invoke_from_text(&mut self, text: &str) -> (r: Option<ToolResult>)
        requires
            old(self).wf(),
            old(self).invocation_count < usize::MAX,
            old(self).accepts_call(text@),
        ensures
            final(self).wf(),
            final(self).handlers == old(self).handlers,
            final(self).kit == old(self).kit,
            match (r, call_in(text@)) {
                (None, None) => *final(self) == *old(self),
                (Some(t), Some((tag, query))) => {
                    &&& final(self).invocation_count == old(self).invocation_count + 1
                    &&& t.tag@ == tag
                    &&& t.query@ == query
                    &&& t.success == old(self).handlers@.contains_key(tag)
                    &&& t.success ==> exists|q: &str|
                        q@ == query && #[trigger] answers(
                            old(self).handlers@[tag],
                            q,
                            t.response,
                        )
                    &&& !t.success ==> t.response@ == not_registered(tag) && t.latency_ms == 0
                },
                _ => false,
            },
    {
        match Self::scan_for_call(text) {
            Some((tag, query)) => Some(self.invoke(tag.as_str(), query.as_str())),
            None => None,
        }
    }

    /// The registered tags.
    pub fn registered_tags(&self) -> (r: Vec<String>)
        ensures
            views(r@) == self.handlers.names(),
    {
        let mut r: Vec<String> = Vec::new();
        let ghost names = self.handlers.names();
        let mut i: usize = 0;
        assert(views(r@) =~= names.take(0));
        while i < self.handlers.entries.len()
            invariant
                names == self.handlers.names(),
                i <= self.handlers.entries@.len(),
                views(r@) == names.take(i as int),
            decreases self.handlers.entries@.len() - i,
        {
            let ghost before = r@;
            r.push(self.handlers.entries[i].0.clone());
            i = i + 1;
            proof {
                let name = self.handlers.entries@[i - 1].0@;
                assert(names.take(i as int) =~= names.take(i - 1).push(name));
                assert(views(r@) =~= views(before).push(name));
            }
        }
        assert(names.take(i as int) =~= names);
        r
    }

    /// Whether a tool is registered.
    pub fn has_handler(&self, tag: &str) -> (b: bool)
        requires
            self.wf(),
        ensures
            b == self.handlers@.contains_key(tag@),
    {
        self.handlers.contains_key(tag)
    }
}

/// A call that is written down is found: behind a text without an angle bracket, the tag in
/// angle brackets, what is asked, and the closing tag. What is found is the tag, and what
/// is asked without the white space round it.
pub proof fn written_calls_are_found(
    before: Seq<char>,
    tag: Seq<char>,
    query: Seq<char>,
    after: Seq<char>,
)
    requires
        !before.contains('<'),
        "call_"@.is_prefix_of(tag),
        forall|i: int| 0 <= i < tag.len() ==> alphanumeric(#[trigger] tag[i]) || tag[i] == '_',
        !tag.contains('>'),
        forall|k: int|
            0 <= k < query.len() ==> !#[trigger] occurs_at(
                query + ("</"@ + tag + ">"@) + after,
                "</"@ + tag + ">"@,
                k,
            ),
    ensures
        call_in(before + seq!['<'] + tag + seq!['>'] + query + ("</"@ + tag + ">"@) + after) == Some(
            (tag, trim(query)),
        ),
{
    let close = "</"@ + tag + ">"@;
    let text = before + seq!['<'] + tag + seq!['>'] + query + close + after;
    let open = before.len() as int;
    let end = open + 1 + tag.len();
    let arrow = seq!['>'];
    assert(text.subrange(open + 1, end) =~= tag);
    assert(text.subrange(end, end + 1) =~= arrow);
    assert forall|j: int| open + 1 <= j < end implies !occurs_at(text, arrow, j) by {
        if occurs_at(text, arrow, j) {
            assert(text.subrange(j, j + 1)[0] == '>');
            assert(tag[j - open - 1] == '>');
        }
    }
    assert(first_occurrence(text, arrow, open + 1, end));
    assert(position(text, arrow, open + 1) == Some(end)) by {
        let i = position(text, arrow, open + 1)->0;
        assert(first_occurrence(text, arrow, open + 1, i));
        assert(i == end);
    }
    assert(is_call_tag(tag)) by {
        reveal_strlit("call_");
        assert(tag.subrange(0, "call_"@.len() as int) =~= "call_"@);
    }
    let rest = query + close + after;
    let at = end + 1 + query.len();
    assert(text.skip(end + 1) =~= rest);
    assert(text.subrange(at, at + close.len()) =~= close);
    assert forall|j: int| end + 1 <= j < at implies !occurs_at(text, close, j) by {
        let k = j - end - 1;
        assert(!occurs_at(rest, close, k));
        if occurs_at(text, close, j) {
            assert(rest.subrange(k, k + close.len()) =~= text.subrange(j, j + close.len()));
        }
    }
    assert(first_occurrence(text, close, end + 1, at));
    assert(position(text, close, end + 1) == Some(at)) by {
        let i = position(text, close, end + 1)->0;
        assert(first_occurrence(text, close, end + 1, i));
        assert(i == at);
    }
    assert(text.subrange(end + 1, at) =~= query);
    assert(close.len() > 0) by {
        reveal_strlit("</");
    }
    assert(call_at(text, open) == Some((tag, trim(query))));
    assert(text[open] == '<');
    nothing_before(text, 0, open);
}

proof fn nothing_before(text: Seq<char>, from: int, open: int)
    requires
        0 <= from <= open < text.len(),
        text[open] == '<',
        call_at(text, open) is Some,
        forall|i: int| from <= i < open ==> #[trigger] text[i] != '<',
    ensures
        call_from(text, from) == call_at(text, open),
    decreases open - from,
{
    if from < open {
        assert(text[from] != '<');
        nothing_before(text, from + 1, open);
    }
}

/// The list of a kit has the entry of every tool, in their order: that of two lists is the
/// one and the other, and that of one tool names its tag, what it does and when to use it.
pub proof fn every_tool_is_listed(a: Seq<ToolDef>, b: Seq<ToolDef>, t: ToolDef)
    ensures
        entries(a + b, (a.len() + b.len()) as int) == entries(a, a.len() as int) + entries(
            b,
            b.len() as int,
        ),
        entries(seq![t], 1) == "• <"@ + t.tag@ + "> — "@ + t.description@ + "\n  Quando usar: "@
            + t.system_hint@ + "\n"@,
    decreases b.len(),
{
    let one = seq![t];
    assert(entries(one, 0) =~= Seq::<char>::empty());
    assert(entries(one, 1) =~= t.entry());
    let n = b.len() as int;
    let whole = entries(a + b, a.len() + n);
    if n == 0 {
        assert(a + b =~= a);
        assert(whole =~= entries(a, a.len() as int) + entries(b, 0));
    } else {
        let less = b.drop_last();
        every_tool_is_listed(a, less, t);
        same_entries(a + b, a + less, a.len() + n - 1);
        same_entries(b, less, n - 1);
        assert((a + b)[a.len() + n - 1] == b[n - 1]);
        assert(whole =~= entries(a, a.len() as int) + entries(b, n));
    }
}

proof fn same_entries(a: Seq<ToolDef>, b: Seq<ToolDef>, n: int)
    requires
        n <= a.len(),
        n <= b.len(),
        forall|i: int| 0 <= i < n ==> #[trigger] a[i] == b[i],
    ensures
        entries(a, n) == entries(b, n),
    decreases n,
{
    if n > 0 {
        same_entries(a, b, n - 1);
        assert(a[n - 1] == b[n - 1]);
    }
}

} // verus!
