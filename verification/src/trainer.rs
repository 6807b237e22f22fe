//! Training on pairs of texts: reading them, and when gradients are applied.

use vstd::prelude::*;

use crate::errors::NodeStorError;
use crate::json::{parse_json, parsed, text_at, text_member, view_of, Json};
use crate::text::{check_starts_with, dec, push_dec, starts_with, trim, trimmed, views};

verus! {

// ─── Samples ─────────────────────────────────────────────────────────────────

/// A pair to train on.
#[derive(Debug)]
pub struct TrainSample {
    pub input: String,
    pub output: String,
}

/// The pair of a line, by its members: input and output, else prompt and
/// completion, else a text that is both.
pub open spec fn pair_of(
    input: Option<Seq<char>>,
    output: Option<Seq<char>>,
    prompt: Option<Seq<char>>,
    completion: Option<Seq<char>>,
    text: Option<Seq<char>>,
) -> Option<(Seq<char>, Seq<char>)> {
    match (input, output) {
        (Some(a), Some(b)) => Some((a, b)),
        _ => match (prompt, completion) {
            (Some(a), Some(b)) => Some((a, b)),
            _ => match text {
                Some(t) => Some((t, t)),
                None => None,
            },
        },
    }
}

/// The pair of a JSON value.
pub open spec fn pair_in(j: Json) -> Option<(Seq<char>, Seq<char>)> {
    pair_of(
        text_at(j, "input"@),
        text_at(j, "output"@),
        text_at(j, "prompt"@),
        text_at(j, "completion"@),
        text_at(j, "text"@),
    )
}

/// The pair of a line, given its members.
pub fn choose_sample(
    input: Option<String>,
    output: Option<String>,
    prompt: Option<String>,
    completion: Option<String>,
    text: Option<String>,
) -> (r: Option<TrainSample>)
    ensures
        match (r, pair_of(
            view_of(input),
            view_of(output),
            view_of(prompt),
            view_of(completion),
            view_of(text),
        )) {
            (Some(s), Some(p)) => (s.input@, s.output@) == p,
            (None, None) => true,
            _ => false,
        },
{
    match (input, output) {
        (Some(a), Some(b)) => {
            return Some(TrainSample { input: a, output: b });
        },
        _ => {},
    }
    match (prompt, completion) {
        (Some(a), Some(b)) => {
            return Some(TrainSample { input: a, output: b });
        },
        _ => {},
    }
    match text {
        Some(t) => {
            let copy = t.clone();
            Some(TrainSample { input: t, output: copy })
        },
        None => None,
    }
}

/// What reading lines gives.
pub enum Reading {
    /// The pairs so far.
    Pairs(Seq<(Seq<char>, Seq<char>)>),
    /// Line `line` is no JSON, for this reason.
    BadJson { line: nat, reason: Seq<char> },
    /// Line `line` holds no pair.
    BadFormat { line: nat },
}

/// A line holds nothing: it is blank or a comment.
pub open spec fn is_skipped(line: Seq<char>) -> bool {
    trim(line).len() == 0 || starts_with(trim(line), "#"@)
}

/// What reading the first `n` lines gives. It stops at the first line that is
/// wrong.
pub open spec fn reading(lines: Seq<String>, n: int) -> Reading
    decreases n,
{
    if n <= 0 {
        Reading::Pairs(Seq::empty())
    } else {
        match reading(lines, n - 1) {
            Reading::Pairs(before) => if is_skipped(lines[n - 1]@) {
                Reading::Pairs(before)
            } else {
                match parsed(trim(lines[n - 1]@)) {
                    Ok(j) => match pair_in(j) {
                        Some(p) => Reading::Pairs(before.push(p)),
                        None => Reading::BadFormat { line: n as nat },
                    },
                    Err(m) => Reading::BadJson { line: n as nat, reason: m },
                }
            },
            bad => bad,
        }
    }
}

/// The views of samples.
pub open spec fn sample_views(v: Seq<TrainSample>) -> Seq<(Seq<char>, Seq<char>)> {
    v.map_values(|s: TrainSample| (s.input@, s.output@))
}

fn parse_sample(line: &str) -> (r: Result<Option<TrainSample>, String>)
    ensures
        match (r, parsed(line@)) {
            (Ok(s), Ok(j)) => match (s, pair_in(j)) {
                (Some(a), Some(b)) => (a.input@, a.output@) == b,
                (None, None) => true,
                _ => false,
            },
            (Err(e), Err(m)) => e@ == m,
            _ => false,
        },
{
    match parse_json(line) {
        Ok(v) => Ok(
            choose_sample(
                text_member(&v, "input"),
                text_member(&v, "output"),
                text_member(&v, "prompt"),
                text_member(&v, "completion"),
                text_member(&v, "text"),
            ),
        ),
        Err(e) => Err(e),
    }
}

proof fn reading_stops(lines: Seq<String>, n: int, m: int)
    requires
        0 <= n <= m,
        !(reading(lines, n) is Pairs),
    ensures
        reading(lines, m) == reading(lines, n),
    decreases m - n,
{
    if n < m {
        reading_stops(lines, n, m - 1);
    }
}

/// Reads the pairs in the lines of a file. Blank lines and comments are passed
/// over; a file without a pair is an error.
pub fn read_jsonl_dataset(lines: &Vec<String>, path: &str) -> (r: Result<
    Vec<TrainSample>,
    NodeStorError,
>)
    ensures
        match (r, reading(lines@, lines@.len() as int)) {
            (Ok(v), Reading::Pairs(p)) => p.len() > 0 && sample_views(v@) == p,
            (Err(e), Reading::Pairs(p)) => p.len() == 0 && e is InferenceError && e.text()
                == "Dataset '"@ + path@ + "' está vazio ou não contém amostras válidas"@,
            (Err(e), Reading::BadJson { line, reason }) => e is InferenceError && e.text()
                == "JSON inválido na linha "@ + dec(line) + ": "@ + reason,
            (Err(e), Reading::BadFormat { line }) => e is InferenceError && e.text() == "Linha "@
                + dec(line)
                + ": formato não reconhecido (esperado: input/output, prompt/completion, ou text)"@,
            _ => false,
        },
{
    let mut samples: Vec<TrainSample> = Vec::new();
    let mut i: usize = 0;
    assert(sample_views(samples@) =~= Seq::<(Seq<char>, Seq<char>)>::empty());
    while i < lines.len()
        invariant
            i <= lines@.len(),
            lines.len() == lines@.len(),
            reading(lines@, i as int) == Reading::Pairs(sample_views(samples@)),
        decreases lines@.len() - i,
    {
        let line = trimmed(lines[i].as_str());
        let skip: bool = line.as_str().unicode_len() == 0 || check_starts_with(line.as_str(), "#");
        if !skip {
            let ghost before = samples@;
            match parse_sample(line.as_str()) {
                Ok(Some(s)) => {
                    samples.push(s);
                    assert(sample_views(samples@) =~= sample_views(before).push(
                        (s.input@, s.output@),
                    ));
                },
                Ok(None) => {
                    proof {
                        reading_stops(lines@, i + 1, lines@.len() as int);
                    }
                    let mut m = "Linha ".to_string();
                    push_dec(&mut m, i as u64 + 1);
                    m.append(
                        ": formato não reconhecido (esperado: input/output, prompt/completion, ou text)",
                    );
                    return Err(NodeStorError::InferenceError(m));
                },
                Err(e) => {
                    proof {
                        reading_stops(lines@, i + 1, lines@.len() as int);
                    }
                    let mut m = "JSON inválido na linha ".to_string();
                    push_dec(&mut m, i as u64 + 1);
                    m.append(": ");
                    m.append(e.as_str());
                    return Err(NodeStorError::InferenceError(m));
                },
            }
        }
        i = i + 1;
    }
    assert(sample_views(samples@).len() == samples@.len());
    if samples.len() == 0 {
        let mut m = "Dataset '".to_string();
        m.append(path);
        m.append("' está vazio ou não contém amostras válidas");
        return Err(NodeStorError::InferenceError(m));
    }
    Ok(samples)
}

// ─── Steps ───────────────────────────────────────────────────────────────────

/// When accumulated gradients are applied.
#[derive(Debug, Clone, Copy, PartialEq, Eq, Structural)]
pub struct GradientSchedule {
    pub grad_accum_steps: usize,
    pub accum_count: usize,
    /// How often gradients were applied.
    pub step: u32,
}

/// What a step does with the gradients.
#[derive(Debug, Clone, Copy, PartialEq, Eq, Structural)]
pub enum GradientAction {
    /// They wait for more.
    Accumulate,
    /// They are divided by this number and applied.
    Apply { samples: usize },
}

impl GradientSchedule {
    /// Nothing accumulated.
    pub fn new(grad_accum_steps: usize) -> (s: GradientSchedule)
        ensures
            s == (GradientSchedule { grad_accum_steps, accum_count: 0, step: 0 }),
    {
        GradientSchedule { grad_accum_steps, accum_count: 0, step: 0 }
    }

    /// Whether a sample can be trained on.
    pub fn accepts(hidden_len: usize, out_features: usize, target_id: usize) -> (b: bool)
        ensures
            b == (hidden_len > 0 && target_id < out_features),
    {
        !(hidden_len == 0 || out_features == 0) && !(target_id >= out_features)
    }

    /// Counts a sample, and says what to do with the gradients.
    pub fn count(&mut self) -> (a: GradientAction)
        requires
            old(self).accum_count < usize::MAX,
            old(self).step < u32::MAX,
        ensures
            final(self).grad_accum_steps == old(self).grad_accum_steps,
            ({
                let n = old(self).accum_count + 1;
                if n >= old(self).grad_accum_steps {
                    &&& a == (GradientAction::Apply { samples: n as usize })
                    &&& final(self).accum_count == 0
                    &&& final(self).step == old(self).step + 1
                } else {
                    &&& a == GradientAction::Accumulate
                    &&& final(self).accum_count == n
                    &&& final(self).step == old(self).step
                }
            }),
            old(self).accum_count < old(self).grad_accum_steps ==> {
                let g = old(self).grad_accum_steps as int;
                &&& final(self).accum_count < g
                &&& final(self).step * g + final(self).accum_count == old(self).step * g + old(
                    self,
                ).accum_count + 1
                &&& a is Apply ==> a == (GradientAction::Apply { samples: g as usize })
            },
    {
        proof {
            let (s, g) = (self.step as int, self.grad_accum_steps as int);
            assert((s + 1) * g == s * g + g) by (nonlinear_arith);
        }
        self.accum_count = self.accum_count + 1;
        if self.accum_count >= self.grad_accum_steps {
            let samples: usize = self.accum_count;
            self.accum_count = 0;
            self.step = self.step + 1;
            GradientAction::Apply { samples }
        } else {
            GradientAction::Accumulate
        }
    }
}

/// What is left of the first `n` lines when the white space round each is taken off and
/// the empty lines and the comments are left out.
pub open spec fn sample_lines(lines: Seq<String>, n: int) -> Seq<Seq<char>> {
    views(lines.take(n)).map_values(|s: Seq<char>| trim(s)).filter(|s: Seq<char>| is_sample_line(s))
}

/// A line that is neither empty nor a comment.
pub open spec fn is_sample_line(s: Seq<char>) -> bool {
    s.len() > 0 && s[0] != '#'
}

/// The line is a document with the fields of the pair.
pub open spec fn gives_pair(line: Seq<char>, pair: (Seq<char>, Seq<char>)) -> bool {
    match parsed(line) {
        Ok(j) => pair_in(j) == Some(pair),
        Err(_) => false,
    }
}

/// A reading that succeeds gives one pair for each line that is neither empty nor a
/// comment, in the order of the lines. One that fails names the first line that is no
/// sample: everything before it can be read.
pub proof fn every_line_gives_its_pair(lines: Seq<String>, n: int)
    requires
        0 <= n <= lines.len(),
    ensures
        match reading(lines, n) {
            Reading::Pairs(v) => {
                let kept = sample_lines(lines, n);
                &&& v.len() == kept.len()
                &&& forall|i: int| 0 <= i < v.len() ==> #[trigger] gives_pair(kept[i], v[i])
            },
            Reading::BadJson { line, reason } => {
                &&& 1 <= line <= n
                &&& reading(lines, line - 1) is Pairs
                &&& parsed(trim(lines[line - 1]@)) == Err::<Json, Seq<char>>(reason)
            },
            Reading::BadFormat { line } => {
                &&& 1 <= line <= n
                &&& reading(lines, line - 1) is Pairs
                &&& parsed(trim(lines[line - 1]@)) is Ok
                &&& pair_in(parsed(trim(lines[line - 1]@))->Ok_0) is None
            },
        },
    decreases n,
{
    reveal(Seq::filter);
    let texts = views(lines.take(n)).map_values(|s: Seq<char>| trim(s));
    if n <= 0 {
        assert(texts.len() == 0);
        assert(sample_lines(lines, n).len() == 0);
    } else {
        every_line_gives_its_pair(lines, n - 1);
        let t = trim(lines[n - 1]@);
        let before = sample_lines(lines, n - 1);
        assert(texts.drop_last() =~= views(lines.take(n - 1)).map_values(|s: Seq<char>| trim(s)));
        assert(texts.last() == t);
        assert(sample_lines(lines, n) == if is_sample_line(t) {
            before.push(t)
        } else {
            before
        });
        assert(is_skipped(lines[n - 1]@) <==> !is_sample_line(t)) by {
            reveal_strlit("#");
            assert("#"@ =~= seq!['#']);
            if t.len() > 0 {
                if t[0] == '#' {
                    assert(t.take(1) =~= "#"@);
                }
                assert(t.take(1)[0] == t[0]);
            }
        }
        if let Reading::Pairs(v) = reading(lines, n) {
            let kept = sample_lines(lines, n);
            assert forall|i: int| 0 <= i < v.len() implies #[trigger] gives_pair(kept[i], v[i]) by {
                let w = reading(lines, n - 1)->Pairs_0;
                if i < w.len() {
                    assert(gives_pair(before[i], w[i]));
                    assert(kept[i] == before[i]);
                    assert(v[i] == w[i]);
                } else {
                    assert(kept[i] == t);
                }
            }
        }
    }
}

/// Which fields make up a pair: `input` and `output` where both are there, or else `prompt`
/// and `completion` where both are there, or else `text`, which stands for both.
pub proof fn pairs_come_from_their_fields(j: Json)
    ensures
        text_at(j, "input"@) is Some && text_at(j, "output"@) is Some ==> pair_in(j) == Some(
            (text_at(j, "input"@)->0, text_at(j, "output"@)->0),
        ),
        text_at(j, "input"@) is None || text_at(j, "output"@) is None ==> {
            &&& text_at(j, "prompt"@) is Some && text_at(j, "completion"@) is Some ==> pair_in(j)
                == Some((text_at(j, "prompt"@)->0, text_at(j, "completion"@)->0))
            &&& text_at(j, "prompt"@) is None || text_at(j, "completion"@) is None ==> match text_at(
                j,
                "text"@,
            ) {
                Some(t) => pair_in(j) == Some((t, t)),
                None => pair_in(j) is None,
            }
        },
{
}

} // verus!
