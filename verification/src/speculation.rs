//! Greedy decoding with head-free speculation.
//!
//! The decoder copies a draft from an earlier occurrence of the most recent
//! tokens, has the target model check the whole draft in one pass, keeps the
//! prefix on which the target agrees, and then takes one token from the target
//! itself. Logits enter only through their largest entry, so the decoder works
//! on tokens: whoever drives it runs the forward passes and hands back the
//! target's greedy choices.

use vstd::prelude::*;

verus! {

/// The longest draft that is ever proposed.
pub const DRAFT_K_MAX: usize = 16;

/// The draft length with which a generation starts.
pub const DRAFT_K_START: usize = 4;

/// How many evicted tokens make a block that is worth indexing.
pub const EVICT_BLOCK: usize = 48;

// ─── Drafting ────────────────────────────────────────────────────────────────

/// The last `ngram` tokens of `seq` also stand at `i`.
pub open spec fn suffix_stands_at(seq: Seq<u32>, ngram: nat, i: int) -> bool {
    &&& 0 <= i
    &&& i + ngram <= seq.len()
    &&& seq.subrange(i, i + ngram) == seq.subrange(seq.len() - ngram, seq.len() as int)
}

/// The largest index below `hi` at which the last `ngram` tokens also stand,
/// or -1.
pub open spec fn latest_occurrence(seq: Seq<u32>, ngram: nat, hi: int) -> int
    decreases hi,
{
    if hi <= 0 {
        -1
    } else if suffix_stands_at(seq, ngram, hi - 1) {
        hi - 1
    } else {
        latest_occurrence(seq, ngram, hi - 1)
    }
}

/// The draft that matches of at most `ngram` tokens give: what followed the
/// latest earlier occurrence of the longest suffix that occurs earlier.
pub open spec fn draft_from(seq: Seq<u32>, k: nat, ngram: nat) -> Seq<u32>
    decreases ngram,
{
    if ngram < 2 || k == 0 {
        Seq::empty()
    } else {
        let i = latest_occurrence(seq, ngram, seq.len() - ngram);
        if i >= 0 {
            let start = i + ngram;
            seq.subrange(start, if start + k <= seq.len() { start + k } else { seq.len() as int })
        } else {
            draft_from(seq, k, (ngram - 1) as nat)
        }
    }
}

/// The draft of at most `k` tokens for the context `seq`.
pub open spec fn draft_of(seq: Seq<u32>, k: nat) -> Seq<u32> {
    draft_from(seq, k, 6)
}

proof fn latest_occurrence_is_one(seq: Seq<u32>, ngram: nat, hi: int)
    ensures
        latest_occurrence(seq, ngram, hi) >= 0 ==> latest_occurrence(seq, ngram, hi) < hi
            && suffix_stands_at(seq, ngram, latest_occurrence(seq, ngram, hi)),
        latest_occurrence(seq, ngram, hi) >= -1,
        forall|j: int|
            latest_occurrence(seq, ngram, hi) < j < hi && 0 <= j ==> !suffix_stands_at(
                seq,
                ngram,
                j,
            ),
    decreases hi,
{
    if hi > 0 && !suffix_stands_at(seq, ngram, hi - 1) {
        latest_occurrence_is_one(seq, ngram, hi - 1);
    }
}

/// A draft is never longer than what was asked for, and what it holds is a copy
/// of what followed an earlier occurrence of the last two to six tokens.
pub proof fn draft_is_a_copy(seq: Seq<u32>, k: nat)
    ensures
        draft_of(seq, k).len() <= k,
        draft_of(seq, k).len() > 0 ==> exists|i: int, ngram: nat|
            2 <= ngram <= 6 && #[trigger] suffix_stands_at(seq, ngram, i) && i + ngram < seq.len()
                && draft_of(seq, k) == seq.subrange(
                i + ngram,
                i + ngram + draft_of(seq, k).len(),
            ),
{
    draft_from_is_a_copy(seq, k, 6);
}

proof fn draft_from_is_a_copy(seq: Seq<u32>, k: nat, n: nat)
    ensures
        draft_from(seq, k, n).len() <= k,
        draft_from(seq, k, n).len() > 0 ==> exists|i: int, ngram: nat|
            2 <= ngram <= n && #[trigger] suffix_stands_at(seq, ngram, i) && i + ngram < seq.len()
                && draft_from(seq, k, n) == seq.subrange(
                i + ngram,
                i + ngram + draft_from(seq, k, n).len(),
            ),
    decreases n,
{
    if n >= 2 && k > 0 {
        latest_occurrence_is_one(seq, n, seq.len() - n);
        let i = latest_occurrence(seq, n, seq.len() - n);
        if i < 0 {
            draft_from_is_a_copy(seq, k, (n - 1) as nat);
        }
    }
}

/// What a draft is, in full. Wherever two to six of the last tokens also stand earlier,
/// there is a draft. It is what followed an earlier occurrence of `n` last tokens: no
/// more of the last tokens, up to six, stand anywhere earlier, these stand nowhere
/// later, and the copy goes on for `k` tokens or to the end of the context.
pub proof fn draft_follows_the_latest_longest_match(seq: Seq<u32>, k: nat, ngram: nat, j: int)
    requires
        2 <= ngram <= 6,
        suffix_stands_at(seq, ngram, j),
        j + ngram < seq.len(),
        k > 0,
    ensures
        exists|i: int, n: nat|
            {
                &&& #[trigger] suffix_stands_at(seq, n, i)
                &&& ngram <= n <= 6
                &&& n == ngram ==> j <= i
                &&& i + n < seq.len()
                &&& draft_of(seq, k) == seq.subrange(
                    i + n,
                    if i + n + k <= seq.len() {
                        i + n + k
                    } else {
                        seq.len() as int
                    },
                )
                &&& forall|x: int, m: nat|
                    n <= m <= 6 && #[trigger] suffix_stands_at(seq, m, x) && x + m < seq.len()
                        ==> m == n && x <= i
            },
{
    draft_from_is_latest(seq, k, 6, ngram, j);
}

proof fn draft_from_is_latest(seq: Seq<u32>, k: nat, top: nat, ngram: nat, j: int)
    requires
        2 <= ngram <= top <= 6,
        suffix_stands_at(seq, ngram, j),
        j + ngram < seq.len(),
        k > 0,
    ensures
        exists|i: int, n: nat|
            {
                &&& #[trigger] suffix_stands_at(seq, n, i)
                &&& ngram <= n <= top
                &&& n == ngram ==> j <= i
                &&& i + n < seq.len()
                &&& draft_from(seq, k, top) == seq.subrange(
                    i + n,
                    if i + n + k <= seq.len() {
                        i + n + k
                    } else {
                        seq.len() as int
                    },
                )
                &&& forall|x: int, m: nat|
                    n <= m <= top && #[trigger] suffix_stands_at(seq, m, x) && x + m < seq.len()
                        ==> m == n && x <= i
            },
    decreases top,
{
    latest_occurrence_is_one(seq, top, seq.len() - top);
    let i = latest_occurrence(seq, top, seq.len() - top);
    if i >= 0 {
        assert(suffix_stands_at(seq, top, i));
        assert(draft_from(seq, k, top) == seq.subrange(
            i + top,
            if i + top + k <= seq.len() {
                i + top + k
            } else {
                seq.len() as int
            },
        ));
        assert forall|x: int, m: nat|
            top <= m <= top && #[trigger] suffix_stands_at(seq, m, x) && x + m
                < seq.len() implies m == top && x <= i by {}
    } else {
        if ngram == top {
            assert(!suffix_stands_at(seq, top, j));
        }
        draft_from_is_latest(seq, k, (top - 1) as nat, ngram, j);
        let (i2, n2) = choose|i: int, n: nat|
            {
                &&& #[trigger] suffix_stands_at(seq, n, i)
                &&& ngram <= n <= top - 1
                &&& n == ngram ==> j <= i
                &&& i + n < seq.len()
                &&& draft_from(seq, k, (top - 1) as nat) == seq.subrange(
                    i + n,
                    if i + n + k <= seq.len() {
                        i + n + k
                    } else {
                        seq.len() as int
                    },
                )
                &&& forall|x: int, m: nat|
                    n <= m <= top - 1 && #[trigger] suffix_stands_at(seq, m, x) && x + m
                        < seq.len() ==> m == n && x <= i
            };
        assert(suffix_stands_at(seq, n2, i2));
        assert forall|x: int, m: nat|
            n2 <= m <= top && #[trigger] suffix_stands_at(seq, m, x) && x + m
                < seq.len() implies m == n2 && x <= i2 by {
            if m == top {
                assert(x < seq.len() - top);
            }
        }
    }
}

fn suffix_occurs(seq: &Vec<u32>, ngram: usize, i: usize) -> (b: bool)
    requires
        i + ngram <= seq@.len(),
    ensures
        b == suffix_stands_at(seq@, ngram as nat, i as int),
{
    let base: usize = seq.len() - ngram;
    let ghost left = seq@.subrange(i as int, i + ngram);
    let ghost right = seq@.subrange(base as int, seq@.len() as int);
    let mut k: usize = 0;
    while k < ngram
        invariant
            i + ngram <= seq.len(),
            base == seq@.len() - ngram,
            k <= ngram,
            left == seq@.subrange(i as int, i + ngram),
            right == seq@.subrange(base as int, seq@.len() as int),
            forall|j: int| 0 <= j < k ==> left[j] == right[j],
        decreases ngram - k,
    {
        if seq[i + k] != seq[base + k] {
            assert(left[k as int] != right[k as int]);
            return false;
        }
        k = k + 1;
    }
    assert(left =~= right);
    true
}

/// Prompt lookup: tries suffixes of six down to two tokens, and copies up to
/// `k` tokens from behind the latest earlier occurrence of the longest that
/// occurs.
pub fn prompt_lookup(seq: &Vec<u32>, k: usize) -> (draft: Vec<u32>)
    ensures
        draft@ == draft_of(seq@, k as nat),
{
    let n: usize = seq.len();
    let mut ngram: usize = 6;
    if k == 0 {
        return Vec::new();
    }
    while ngram >= 2
        invariant
            n == seq@.len(),
            k > 0,
            1 <= ngram <= 6,
            draft_of(seq@, k as nat) == draft_from(seq@, k as nat, ngram as nat),
        decreases ngram,
    {
        if n > ngram {
            let mut i: usize = n - ngram;
            while i > 0
                invariant
                    n == seq@.len(),
                    k > 0,
                    2 <= ngram <= 6,
                    i + ngram <= n,
                    draft_of(seq@, k as nat) == draft_from(seq@, k as nat, ngram as nat),
                    latest_occurrence(seq@, ngram as nat, n - ngram) == latest_occurrence(
                        seq@,
                        ngram as nat,
                        i as int,
                    ),
                decreases i,
            {
                i = i - 1;
                if suffix_occurs(seq, ngram, i) {
                    let start: usize = i + ngram;
                    let end: usize = if k <= n - start {
                        start + k
                    } else {
                        n
                    };
                    return copy_range(seq, start, end);
                }
            }
        }
        ngram = ngram - 1;
    }
    Vec::new()
}

/// The tokens `seq[from..to]`.
pub fn copy_range(seq: &Vec<u32>, from: usize, to: usize) -> (r: Vec<u32>)
    requires
        from <= to <= seq@.len(),
    ensures
        r@ == seq@.subrange(from as int, to as int),
{
    let mut r: Vec<u32> = Vec::new();
    let mut i: usize = from;
    while i < to
        invariant
            from <= i <= to <= seq@.len(),
            r@ == seq@.subrange(from as int, i as int),
        decreases to - i,
    {
        r.push(seq[i]);
        i = i + 1;
        assert(r@ =~= seq@.subrange(from as int, i as int));
    }
    r
}

// ─── Acceptance ──────────────────────────────────────────────────────────────

/// How many tokens of `draft` the target agrees with. The target's choice
/// before the draft is `choice`; `greedy[i]` is its choice after `draft[i]`.
pub open spec fn agreed(choice: u32, greedy: Seq<u32>, draft: Seq<u32>) -> nat
    decreases greedy.len(),
{
    if greedy.len() == 0 || draft.len() == 0 || choice != draft[0] {
        0
    } else {
        1 + agreed(greedy[0], greedy.skip(1), draft.skip(1))
    }
}

/// The target's choice before position `i` of the draft.
pub open spec fn choice_before(choice: u32, greedy: Seq<u32>, i: int) -> u32 {
    if i == 0 {
        choice
    } else {
        greedy[i - 1]
    }
}

/// What the count of agreed tokens means: the target chose each of them, and
/// where the target was asked about one more, it chose another.
pub proof fn agreed_is_the_longest_agreement(choice: u32, greedy: Seq<u32>, draft: Seq<u32>)
    ensures
        agreed(choice, greedy, draft) <= greedy.len(),
        agreed(choice, greedy, draft) <= draft.len(),
        forall|i: int|
            0 <= i < agreed(choice, greedy, draft) ==> #[trigger] draft[i] == choice_before(
                choice,
                greedy,
                i,
            ),
        agreed(choice, greedy, draft) < greedy.len() && agreed(choice, greedy, draft) < draft.len()
            ==> draft[agreed(choice, greedy, draft) as int] != choice_before(
            choice,
            greedy,
            agreed(choice, greedy, draft) as int,
        ),
    decreases greedy.len(),
{
    if greedy.len() > 0 && draft.len() > 0 && choice == draft[0] {
        let g = greedy.skip(1);
        let d = draft.skip(1);
        agreed_is_the_longest_agreement(greedy[0], g, d);
        let m = agreed(choice, greedy, draft);
        assert forall|i: int| 0 <= i < m implies #[trigger] draft[i] == choice_before(
            choice,
            greedy,
            i,
        ) by {
            if i > 0 {
                assert(d[i - 1] == choice_before(greedy[0], g, i - 1));
            }
        }
        if m < greedy.len() && m < draft.len() {
            assert(d[m - 1] != choice_before(greedy[0], g, m - 1));
        }
    }
}

fn count_agreed(choice: u32, greedy: &Vec<u32>, draft: &Vec<u32>) -> (m: usize)
    ensures
        m == agreed(choice, greedy@, draft@),
        m <= greedy@.len(),
        m <= draft@.len(),
{
    let mut m: usize = 0;
    let mut prev: u32 = choice;
    assert(greedy@.skip(0) =~= greedy@ && draft@.skip(0) =~= draft@);
    while m < greedy.len() && m < draft.len() && prev == draft[m]
        invariant
            m <= greedy@.len(),
            m <= draft@.len(),
            agreed(choice, greedy@, draft@) == m + agreed(
                prev,
                greedy@.skip(m as int),
                draft@.skip(m as int),
            ),
        decreases greedy@.len() - m,
    {
        assert(greedy@.skip(m as int).skip(1) =~= greedy@.skip(m + 1));
        assert(draft@.skip(m as int).skip(1) =~= draft@.skip(m + 1));
        prev = greedy[m];
        m = m + 1;
    }
    m
}

/// How many of `tokens` are emitted when the end-of-text token ends the
/// generation and there is room for `room` tokens.
pub open spec fn emitted(tokens: Seq<u32>, eos: Option<u32>, room: nat) -> nat
    decreases tokens.len(),
{
    if tokens.len() == 0 || room == 0 || Some(tokens[0]) == eos {
        0
    } else {
        1 + emitted(tokens.skip(1), eos, (room - 1) as nat)
    }
}

/// What the count of emitted tokens means: none of them ends the text, and the
/// count stops short of the tokens only at the end of the text or of the room.
pub proof fn emitted_stops_at_end_of_text(tokens: Seq<u32>, eos: Option<u32>, room: nat)
    ensures
        emitted(tokens, eos, room) <= tokens.len(),
        emitted(tokens, eos, room) <= room,
        forall|i: int| 0 <= i < emitted(tokens, eos, room) ==> Some(#[trigger] tokens[i]) != eos,
        emitted(tokens, eos, room) < tokens.len() && emitted(tokens, eos, room) < room ==> Some(
            tokens[emitted(tokens, eos, room) as int],
        ) == eos,
    decreases tokens.len(),
{
    if tokens.len() > 0 && room > 0 && Some(tokens[0]) != eos {
        let rest = tokens.skip(1);
        emitted_stops_at_end_of_text(rest, eos, (room - 1) as nat);
        let m = emitted(tokens, eos, room);
        assert forall|i: int| 0 <= i < m implies Some(#[trigger] tokens[i]) != eos by {
            if i > 0 {
                assert(tokens[i] == rest[i - 1]);
            }
        }
        if m < tokens.len() && m < room {
            assert(tokens[m as int] == rest[m - 1]);
        }
    }
}

fn count_emitted(tokens: &Vec<u32>, upto: usize, eos: Option<u32>, room: usize) -> (m: usize)
    requires
        upto <= tokens@.len(),
    ensures
        m == emitted(tokens@.take(upto as int), eos, room as nat),
        m <= upto,
        m <= room,
{
    let mut m: usize = 0;
    let ghost all = tokens@.take(upto as int);
    assert(all.skip(0) =~= all);
    while m < upto && m < room && !is_eos(tokens[m], eos)
        invariant
            m <= upto <= tokens@.len(),
            m <= room,
            all == tokens@.take(upto as int),
            emitted(all, eos, room as nat) == m + emitted(
                all.skip(m as int),
                eos,
                (room - m) as nat,
            ),
        decreases upto - m,
    {
        assert(all.skip(m as int).skip(1) =~= all.skip(m + 1));
        m = m + 1;
    }
    m
}

fn is_eos(token: u32, eos: Option<u32>) -> (b: bool)
    ensures
        b == (Some(token) == eos),
{
    match eos {
        Some(e) => e == token,
        None => false,
    }
}

// ─── The decoder ─────────────────────────────────────────────────────────────

/// What the decoder waits for.
#[derive(Clone, Copy, Debug, PartialEq, Eq, Structural)]
pub enum Phase {
    /// A new round may start.
    Ready,
    /// The target has to check the pending draft.
    Verifying,
    /// The target's own token is due.
    Correcting,
    /// The target has to process the token that was just taken from it.
    Stepping,
    /// The generation is over.
    Done,
}

/// The state of a generation, as a mathematical value.
pub struct Generation {
    pub prompt: Seq<u32>,
    pub max_tokens: nat,
    pub eos: Option<u32>,
    pub generated: Seq<u32>,
    pub next: Option<u32>,
    pub draft_k: nat,
    pub pending: Seq<u32>,
    pub window_start: nat,
    pub evict_buf: Seq<u32>,
    pub spec_rounds: nat,
    pub spec_drafted: nat,
    pub spec_accepted: nat,
    pub phase: Phase,
}

impl Generation {
    /// The prompt and what was generated after it.
    pub open spec fn context(self) -> Seq<u32> {
        self.prompt + self.generated
    }

    /// The start of a generation whose prefill left the target's choice `next`.
    pub open spec fn start(
        prompt: Seq<u32>,
        max_tokens: nat,
        eos: Option<u32>,
        next: Option<u32>,
    ) -> Generation {
        Generation {
            prompt,
            max_tokens,
            eos,
            generated: Seq::empty(),
            next,
            draft_k: DRAFT_K_START as nat,
            pending: Seq::empty(),
            window_start: 0,
            evict_buf: Seq::empty(),
            spec_rounds: 0,
            spec_drafted: 0,
            spec_accepted: 0,
            phase: Phase::Ready,
        }
    }

    /// A round begins: the generation ends, or a draft is pending, or there is
    /// nothing to draft and the target's token is due.
    pub open spec fn after_draft(self) -> Generation {
        let draft = draft_of(self.context(), self.draft_k);
        if self.generated.len() >= self.max_tokens || self.next is None {
            Generation { phase: Phase::Done, ..self }
        } else if draft.len() == 0 {
            Generation { pending: draft, phase: Phase::Correcting, ..self }
        } else {
            Generation {
                pending: draft,
                spec_rounds: self.spec_rounds + 1,
                spec_drafted: self.spec_drafted + draft.len(),
                phase: Phase::Verifying,
                ..self
            }
        }
    }

    /// How many tokens of the pending draft the target agrees with.
    pub open spec fn agreed(self, greedy: Seq<u32>) -> nat {
        agreed(self.next->0, greedy, self.pending)
    }

    /// The tokens that the check of the pending draft emits.
    pub open spec fn verified_tokens(self, greedy: Seq<u32>) -> Seq<u32> {
        let accepted = self.pending.take(self.agreed(greedy) as int);
        accepted.take(
            emitted(accepted, self.eos, (self.max_tokens - self.generated.len()) as nat) as int,
        )
    }

    /// The target has checked the pending draft.
    pub open spec fn after_verify(self, greedy: Seq<u32>) -> Generation {
        let m = self.agreed(greedy);
        let tokens = self.verified_tokens(greedy);
        let generated = self.generated + tokens;
        let counted = Generation { generated, spec_accepted: self.spec_accepted + m, ..self };
        if tokens.len() < m || generated.len() >= self.max_tokens {
            Generation { next: None, phase: Phase::Done, ..counted }
        } else {
            Generation {
                next: if m > 0 {
                    Some(greedy[m - 1])
                } else {
                    self.next
                },
                draft_k: if m == self.pending.len() {
                    if self.draft_k + 2 <= DRAFT_K_MAX {
                        self.draft_k + 2
                    } else {
                        DRAFT_K_MAX as nat
                    }
                } else if m == 0 && self.draft_k > 1 {
                    (self.draft_k - 1) as nat
                } else {
                    self.draft_k
                },
                phase: Phase::Correcting,
                ..counted
            }
        }
    }

    /// The target's own token is taken, unless it ends the text.
    pub open spec fn after_correct(self) -> Generation {
        if self.next is None || self.next == self.eos {
            Generation { phase: Phase::Done, ..self }
        } else {
            Generation {
                generated: self.generated.push(self.next->0),
                next: None,
                phase: Phase::Stepping,
                ..self
            }
        }
    }

    /// The evicted tokens that wait to be indexed, after `evicted` more cache
    /// positions left the window.
    pub open spec fn buffered(self, evicted: nat) -> Seq<u32> {
        let all = self.context();
        let from = if self.window_start <= all.len() {
            self.window_start
        } else {
            all.len()
        };
        let to = if self.window_start + evicted <= all.len() {
            self.window_start + evicted
        } else {
            all.len()
        };
        self.evict_buf + all.subrange(from as int, to as int)
    }

    /// Whether the buffered tokens make a block to index.
    pub open spec fn flushes(self, evicted: nat) -> bool {
        evicted > 0 && self.buffered(evicted).len() >= EVICT_BLOCK
    }

    /// The target has processed its own token, chose `next` after it, and
    /// `evicted` cache positions left the window.
    pub open spec fn after_advance(self, next: Option<u32>, evicted: nat) -> Generation {
        Generation {
            next,
            window_start: self.window_start + evicted,
            evict_buf: if self.flushes(evicted) {
                Seq::empty()
            } else {
                self.buffered(evicted)
            },
            phase: Phase::Ready,
            ..self
        }
    }

    /// What every reachable state keeps.
    pub open spec fn consistent(self) -> bool {
        &&& self.generated.len() <= self.max_tokens
        &&& 1 <= self.draft_k <= DRAFT_K_MAX
        &&& self.spec_accepted <= self.spec_drafted <= DRAFT_K_MAX * self.spec_rounds
        &&& self.spec_rounds <= self.generated.len() + if self.phase is Ready || self.phase
            is Stepping {
            0nat
        } else {
            1nat
        }
        &&& self.phase is Verifying ==> {
            &&& self.next is Some
            &&& 0 < self.pending.len() <= self.draft_k
            &&& self.generated.len() < self.max_tokens
            &&& self.spec_accepted + self.pending.len() <= self.spec_drafted
        }
        &&& self.phase is Correcting ==> self.next is Some && self.generated.len()
            < self.max_tokens
    }

    /// Everything generated so far is what the target `model`, run greedily one
    /// token at a time, generates after the prompt, and no token of it ends the
    /// text.
    pub open spec fn is_greedy_run(self, model: spec_fn(Seq<u32>) -> u32) -> bool {
        forall|j: int|
            0 <= j < self.generated.len() ==> {
                &&& #[trigger] self.generated[j] == model(self.prompt + self.generated.take(j))
                &&& Some(self.generated[j]) != self.eos
            }
    }

    /// The state is a greedy run of `model`, and the choice at hand, if there
    /// is one, is the model's choice after the context.
    pub open spec fn follows(self, model: spec_fn(Seq<u32>) -> u32) -> bool {
        self.is_greedy_run(model) && (self.next is Some ==> self.next == Some(
            model(self.context()),
        ))
    }
}

/// What the target answers when it checks `draft` after `context`.
pub open spec fn answers(
    model: spec_fn(Seq<u32>) -> u32,
    context: Seq<u32>,
    draft: Seq<u32>,
    greedy: Seq<u32>,
) -> bool {
    greedy.len() <= draft.len() && forall|i: int|
        0 <= i < greedy.len() ==> #[trigger] greedy[i] == model(context + draft.take(i + 1))
}

/// A generation starts as a greedy run of the target, where the choice it is
/// given, if any, is the target's choice after the prompt.
pub proof fn start_is_lossless(
    prompt: Seq<u32>,
    max_tokens: nat,
    eos: Option<u32>,
    next: Option<u32>,
    model: spec_fn(Seq<u32>) -> u32,
)
    requires
        next is Some ==> next == Some(model(prompt)),
    ensures
        Generation::start(prompt, max_tokens, eos, next).consistent(),
        Generation::start(prompt, max_tokens, eos, next).follows(model),
{
    assert(Generation::start(prompt, max_tokens, eos, next).context() =~= prompt);
}

/// Speculation is lossless: checking a draft keeps a generation a greedy run of
/// the target, whatever the draft holds.
pub proof fn verification_is_lossless(
    g: Generation,
    greedy: Seq<u32>,
    model: spec_fn(Seq<u32>) -> u32,
)
    requires
        g.consistent(),
        g.phase is Verifying,
        g.follows(model),
        answers(model, g.context(), g.pending, greedy),
    ensures
        g.after_verify(greedy).follows(model),
{
    let m = g.agreed(greedy);
    let accepted = g.pending.take(m as int);
    let room = (g.max_tokens - g.generated.len()) as nat;
    agreed_is_the_longest_agreement(g.next->0, greedy, g.pending);
    emitted_stops_at_end_of_text(accepted, g.eos, room);
    let tokens = g.verified_tokens(greedy);
    let after = g.after_verify(greedy);
    assert(after.generated == g.generated + tokens);
    assert forall|j: int| 0 <= j < after.generated.len() implies {
        &&& #[trigger] after.generated[j] == model(g.prompt + after.generated.take(j))
        &&& Some(after.generated[j]) != g.eos
    } by {
        if j < g.generated.len() {
            assert(after.generated.take(j) =~= g.generated.take(j));
            assert(after.generated[j] == g.generated[j]);
        } else {
            let i = j - g.generated.len();
            assert(after.generated[j] == tokens[i] == accepted[i] == g.pending[i]);
            assert(g.pending[i] == choice_before(g.next->0, greedy, i));
            if i == 0 {
                assert(after.generated.take(j) =~= g.generated);
            } else {
                assert(greedy[i - 1] == model(g.context() + g.pending.take(i)));
                assert(g.prompt + after.generated.take(j) =~= g.context() + g.pending.take(i));
            }
        }
    }
    if after.next is Some {
        assert(tokens =~= accepted);
        if m > 0 {
            assert(after.context() =~= g.context() + g.pending.take(m as int));
            assert(greedy[m - 1] == model(g.context() + g.pending.take(m as int)));
        } else {
            assert(after.context() =~= g.context());
        }
    }
}

/// The other steps keep a generation a greedy run of the target as well.
pub proof fn other_steps_are_lossless(
    g: Generation,
    next: Option<u32>,
    evicted: nat,
    model: spec_fn(Seq<u32>) -> u32,
)
    requires
        g.consistent(),
        g.follows(model),
    ensures
        g.after_draft().follows(model),
        g.after_correct().follows(model),
        next is Some ==> next == Some(model(g.context())) ==> g.after_advance(
            next,
            evicted,
        ).follows(model),
        next is None ==> g.after_advance(next, evicted).follows(model),
{
    let after = g.after_correct();
    if g.next is Some && g.next != g.eos {
        assert forall|j: int| 0 <= j < after.generated.len() implies {
            &&& #[trigger] after.generated[j] == model(g.prompt + after.generated.take(j))
            &&& Some(after.generated[j]) != g.eos
        } by {
            if j < g.generated.len() {
                assert(after.generated.take(j) =~= g.generated.take(j));
                assert(after.generated[j] == g.generated[j]);
            } else {
                assert(after.generated.take(j) =~= g.generated);
            }
        }
    }
    assert(g.after_draft().context() == g.context());
    assert(g.after_advance(next, evicted).context() == g.context());
}

/// A greedy run is fixed by the model, the prompt and its length: two
/// generations that reach the same length hold the same tokens, however they
/// speculated.
pub proof fn greedy_runs_agree(a: Generation, b: Generation, model: spec_fn(Seq<u32>) -> u32)
    requires
        a.is_greedy_run(model),
        b.is_greedy_run(model),
        a.prompt == b.prompt,
        a.generated.len() <= b.generated.len(),
    ensures
        a.generated == b.generated.take(a.generated.len() as int),
{
    runs_agree_up_to(a, b, model, a.generated.len() as int);
    assert(a.generated.take(a.generated.len() as int) =~= a.generated);
}

proof fn runs_agree_up_to(
    a: Generation,
    b: Generation,
    model: spec_fn(Seq<u32>) -> u32,
    n: int,
)
    requires
        a.is_greedy_run(model),
        b.is_greedy_run(model),
        a.prompt == b.prompt,
        0 <= n <= a.generated.len() <= b.generated.len(),
    ensures
        a.generated.take(n) == b.generated.take(n),
    decreases n,
{
    if n > 0 {
        runs_agree_up_to(a, b, model, n - 1);
        assert(a.generated[n - 1] == b.generated[n - 1]);
        assert(a.generated.take(n) =~= a.generated.take(n - 1).push(a.generated[n - 1]));
        assert(b.generated.take(n) =~= b.generated.take(n - 1).push(b.generated[n - 1]));
    } else {
        assert(a.generated.take(n) =~= b.generated.take(n));
    }
}

// ─── Progress ────────────────────────────────────────────────────────────────

impl Generation {
    /// There is nothing left to generate: the limit is reached, or the target ends the
    /// text here.
    pub open spec fn is_whole(self, model: spec_fn(Seq<u32>) -> u32) -> bool {
        self.generated.len() == self.max_tokens || Some(model(self.context())) == self.eos
    }
}

/// Checking a draft ends a generation only where there is nothing left to generate. A
/// draft that is rejected, in part or as a whole, costs nothing: the target's own choice
/// after the tokens that were accepted is at hand and due.
pub proof fn rejected_drafts_cost_nothing(
    g: Generation,
    greedy: Seq<u32>,
    model: spec_fn(Seq<u32>) -> u32,
)
    requires
        g.consistent(),
        g.phase is Verifying,
        g.follows(model),
        answers(model, g.context(), g.pending, greedy),
    ensures
        ({
            let after = g.after_verify(greedy);
            &&& after.prompt == g.prompt && after.max_tokens == g.max_tokens && after.eos == g.eos
            &&& g.generated.is_prefix_of(after.generated)
            &&& after.phase is Done ==> after.is_whole(model)
            &&& !(after.phase is Done) ==> after.phase is Correcting && after.next == Some(
                model(after.context()),
            )
        }),
{
    let m = g.agreed(greedy);
    let accepted = g.pending.take(m as int);
    let room = (g.max_tokens - g.generated.len()) as nat;
    agreed_is_the_longest_agreement(g.next->0, greedy, g.pending);
    emitted_stops_at_end_of_text(accepted, g.eos, room);
    verification_is_lossless(g, greedy, model);
    let tokens = g.verified_tokens(greedy);
    let after = g.after_verify(greedy);
    let e = tokens.len() as int;
    assert(g.generated =~= after.generated.take(g.generated.len() as int));
    if after.phase is Done && after.generated.len() < after.max_tokens {
        assert(e < m);
        assert(Some(accepted[e]) == g.eos);
        assert(accepted[e] == g.pending[e]);
        assert(g.pending[e] == choice_before(g.next->0, greedy, e));
        assert(tokens =~= g.pending.take(e));
        assert(after.context() =~= g.context() + g.pending.take(e));
        if e == 0 {
            assert(after.context() =~= g.context());
        } else {
            assert(greedy[e - 1] == model(g.context() + g.pending.take(e)));
        }
    }
}

/// A round makes progress: where the target has a choice and there is room, a round
/// generates at least one token and leaves the target to process the last of them, or
/// there is nothing left to generate.
pub proof fn rounds_make_progress(
    g: Generation,
    greedy: Seq<u32>,
    model: spec_fn(Seq<u32>) -> u32,
)
    requires
        g.consistent(),
        g.phase is Ready,
        g.follows(model),
        g.next is Some,
        g.generated.len() < g.max_tokens,
        answers(model, g.context(), g.after_draft().pending, greedy),
    ensures
        ({
            let drafted = g.after_draft();
            let checked = if drafted.phase is Verifying {
                drafted.after_verify(greedy)
            } else {
                drafted
            };
            let after = if checked.phase is Correcting {
                checked.after_correct()
            } else {
                checked
            };
            &&& drafted.phase is Verifying || drafted.phase is Correcting
            &&& after.follows(model)
            &&& if after.phase is Done {
                after.is_whole(model)
            } else {
                after.phase is Stepping && after.generated.len() > g.generated.len()
            }
        }),
{
    let drafted = g.after_draft();
    draft_is_a_copy(g.context(), g.draft_k);
    other_steps_are_lossless(g, None, 0, model);
    assert(drafted.context() == g.context());
    if drafted.phase is Verifying {
        assert(drafted.consistent());
        rejected_drafts_cost_nothing(drafted, greedy, model);
        verification_is_lossless(drafted, greedy, model);
        let checked = drafted.after_verify(greedy);
        agreed_is_the_longest_agreement(drafted.next->0, greedy, drafted.pending);
        emitted_stops_at_end_of_text(
            drafted.pending.take(drafted.agreed(greedy) as int),
            drafted.eos,
            (drafted.max_tokens - drafted.generated.len()) as nat,
        );
        if checked.phase is Correcting {
            assert(checked.generated.len() >= g.generated.len());
            correction_is_lossless(checked, model);
        }
    } else {
        correction_is_lossless(drafted, model);
    }
}

/// Taking the target's token generates exactly that token, unless it ends the text.
pub proof fn correction_is_lossless(g: Generation, model: spec_fn(Seq<u32>) -> u32)
    requires
        g.follows(model),
        g.next is Some,
    ensures
        g.after_correct().follows(model),
        if g.next == g.eos {
            g.after_correct().phase is Done && g.after_correct().generated == g.generated
        } else {
            g.after_correct().phase is Stepping && g.after_correct().generated
                == g.generated.push(g.next->0)
        },
        g.after_correct().phase is Done ==> g.after_correct().is_whole(model),
{
    let after = g.after_correct();
    if g.next != g.eos {
        assert forall|j: int| 0 <= j < after.generated.len() implies {
            &&& #[trigger] after.generated[j] == model(g.prompt + after.generated.take(j))
            &&& Some(after.generated[j]) != g.eos
        } by {
            if j < g.generated.len() {
                assert(after.generated.take(j) =~= g.generated.take(j));
                assert(after.generated[j] == g.generated[j]);
            } else {
                assert(after.generated.take(j) =~= g.generated);
            }
        }
    }
}

/// A round begins unless there is no room or the target gave no choice, and beginning
/// one generates nothing and keeps the target's choice.
pub proof fn drafting_changes_no_text(g: Generation)
    ensures
        ({
            let after = g.after_draft();
            &&& after.phase is Done <==> g.generated.len() >= g.max_tokens || g.next is None
            &&& after.phase is Verifying ==> after.pending.len() > 0
            &&& after.generated == g.generated && after.prompt == g.prompt
            &&& after.next == g.next && after.eos == g.eos && after.max_tokens == g.max_tokens
            &&& after.evict_buf == g.evict_buf && after.window_start == g.window_start
            &&& after.spec_drafted - g.spec_drafted == if after.phase is Verifying {
                after.pending.len() as int
            } else {
                0
            }
            &&& after.spec_rounds - g.spec_rounds == if after.phase is Verifying {
                1int
            } else {
                0
            }
        }),
{
}

/// Two generations of one target that have nothing left to generate hold the same
/// tokens, however they speculated: speculation changes nothing of the result.
pub proof fn whole_generations_agree(a: Generation, b: Generation, model: spec_fn(Seq<u32>) -> u32)
    requires
        a.is_greedy_run(model),
        b.is_greedy_run(model),
        a.is_whole(model),
        b.is_whole(model),
        a.prompt == b.prompt,
        a.eos == b.eos,
        a.max_tokens == b.max_tokens,
        a.generated.len() <= a.max_tokens,
        b.generated.len() <= b.max_tokens,
    ensures
        a.generated == b.generated,
{
    if a.generated.len() <= b.generated.len() {
        shorter_whole_agrees(a, b, model);
    } else {
        shorter_whole_agrees(b, a, model);
    }
}

proof fn shorter_whole_agrees(a: Generation, b: Generation, model: spec_fn(Seq<u32>) -> u32)
    requires
        a.is_greedy_run(model),
        b.is_greedy_run(model),
        a.is_whole(model),
        a.prompt == b.prompt,
        a.eos == b.eos,
        a.max_tokens == b.max_tokens,
        a.generated.len() <= b.generated.len() <= b.max_tokens,
    ensures
        a.generated == b.generated,
{
    greedy_runs_agree(a, b, model);
    let n = a.generated.len() as int;
    if n < b.generated.len() {
        assert(b.generated[n] == model(b.prompt + b.generated.take(n)));
        assert(Some(b.generated[n]) != b.eos);
    }
    assert(b.generated.take(n) =~= a.generated);
    assert(n == b.generated.len());
    assert(b.generated.take(n) =~= b.generated);
}

/// Drafts adapt to how they fare: one that was accepted as a whole lets the next be two
/// tokens longer, up to the most; one that was rejected as a whole makes it one token
/// shorter, down to one; otherwise the length stays.
pub proof fn drafts_adapt(g: Generation, greedy: Seq<u32>)
    requires
        g.consistent(),
        g.phase is Verifying,
        greedy.len() <= g.pending.len(),
    ensures
        ({
            let after = g.after_verify(greedy);
            let all = greedy.len() == g.pending.len() && forall|i: int|
                0 <= i < g.pending.len() ==> #[trigger] g.pending[i] == choice_before(
                    g.next->0,
                    greedy,
                    i,
                );
            let none = greedy.len() == 0 || g.pending[0] != g.next->0;
            &&& 1 <= after.draft_k <= DRAFT_K_MAX
            &&& !(after.phase is Done) && all ==> after.draft_k == if g.draft_k >= 14 {
                16
            } else {
                g.draft_k + 2
            }
            &&& !(after.phase is Done) && none ==> after.draft_k == if g.draft_k == 1 {
                1
            } else {
                (g.draft_k - 1) as nat
            }
            &&& !(after.phase is Done) && !all && !none ==> after.draft_k == g.draft_k
            &&& all ==> after.spec_accepted == g.spec_accepted + g.pending.len()
            &&& none ==> after.spec_accepted == g.spec_accepted
            &&& after.spec_accepted >= g.spec_accepted + (after.generated.len() - g.generated.len())
            &&& after.spec_rounds == g.spec_rounds && after.spec_drafted == g.spec_drafted
        }),
{
    agreed_is_the_longest_agreement(g.next->0, greedy, g.pending);
    let m = g.agreed(greedy);
    let accepted = g.pending.take(m as int);
    emitted_stops_at_end_of_text(
        accepted,
        g.eos,
        (g.max_tokens - g.generated.len()) as nat,
    );
    if greedy.len() > 0 && g.pending[0] == g.next->0 {
        assert(choice_before(g.next->0, greedy, 0) == g.pending[0]);
        assert(m > 0);
    }
    if m == g.pending.len() {
        assert forall|i: int| 0 <= i < g.pending.len() implies #[trigger] g.pending[i]
            == choice_before(g.next->0, greedy, i) by {}
    }
    if m > 0 {
        assert(g.pending[0] == choice_before(g.next->0, greedy, 0));
    }
}

/// No token that leaves the window is lost or indexed twice. Where the tokens that wait
/// to be indexed are those of the context from `from` up to the window, they still are
/// so after more have left it: either all of them, from `from` on, wait, fewer than a
/// block of 48, or all of them are given out as a block and none waits.
pub proof fn evicted_tokens_are_indexed_once(
    g: Generation,
    next: Option<u32>,
    evicted: nat,
    from: int,
)
    requires
        0 <= from <= g.window_start,
        g.window_start + evicted <= g.context().len(),
        g.evict_buf == g.context().subrange(from, g.window_start as int),
        g.evict_buf.len() < EVICT_BLOCK,
    ensures
        ({
            let after = g.after_advance(next, evicted);
            let left = g.context().subrange(from, (g.window_start + evicted) as int);
            &&& after.phase is Ready && after.next == next
            &&& after.context() == g.context() && after.generated == g.generated
            &&& after.window_start == g.window_start + evicted
            &&& if g.flushes(evicted) {
                left.len() >= 48 && g.buffered(evicted) == left && after.evict_buf
                    == Seq::<u32>::empty()
            } else {
                left.len() < 48 && after.evict_buf == left
            }
        }),
{
    let left = g.context().subrange(from, (g.window_start + evicted) as int);
    assert(g.buffered(evicted) =~= left);
}

/// The decoder of one generation.
pub struct Decoder {
    pub prompt_len: usize,
    pub max_tokens: usize,
    pub eos_token: Option<u32>,
    /// The tokens generated so far.
    pub generated: Vec<u32>,
    /// The prompt followed by the generated tokens.
    pub full_seq: Vec<u32>,
    /// The target's choice after `full_seq`, where it is known.
    pub next: Option<u32>,
    /// How many tokens the next draft may hold.
    pub draft_k: usize,
    /// The draft that the target has to check.
    pub pending: Vec<u32>,
    /// Where the sliding window starts in `full_seq`.
    pub window_start: usize,
    /// Tokens that left the window and are not indexed yet.
    pub evict_buf: Vec<u32>,
    pub spec_rounds: usize,
    pub spec_drafted: usize,
    pub spec_accepted: usize,
    pub phase: Phase,
}

impl View for Decoder {
    type V = Generation;

    open spec fn view(&self) -> Generation {
        Generation {
            prompt: self.full_seq@.take(self.prompt_len as int),
            max_tokens: self.max_tokens as nat,
            eos: self.eos_token,
            generated: self.generated@,
            next: self.next,
            draft_k: self.draft_k as nat,
            pending: self.pending@,
            window_start: self.window_start as nat,
            evict_buf: self.evict_buf@,
            spec_rounds: self.spec_rounds as nat,
            spec_drafted: self.spec_drafted as nat,
            spec_accepted: self.spec_accepted as nat,
            phase: self.phase,
        }
    }
}

impl Decoder {
    /// The state is one that a generation can be in.
    pub open spec fn wf(&self) -> bool {
        &&& self.prompt_len <= self.full_seq@.len()
        &&& self.full_seq@ == self@.context()
        &&& self@.consistent()
    }

    /// A generation of at most `max_tokens` tokens after `prompt`. `next` is the
    /// target's choice after the last prompt token that it could process.
    pub fn new(
        prompt: Vec<u32>,
        max_tokens: usize,
        eos_token: Option<u32>,
        next: Option<u32>,
    ) -> (d: Decoder)
        ensures
            d.wf(),
            d@ == Generation::start(prompt@, max_tokens as nat, eos_token, next),
    {
        let d = Decoder {
            prompt_len: prompt.len(),
            max_tokens,
            eos_token,
            generated: Vec::new(),
            full_seq: prompt,
            next,
            draft_k: DRAFT_K_START,
            pending: Vec::new(),
            window_start: 0,
            evict_buf: Vec::new(),
            spec_rounds: 0,
            spec_drafted: 0,
            spec_accepted: 0,
            phase: Phase::Ready,
        };
        proof {
            assert(d@.prompt =~= prompt@);
            assert(d@.context() =~= prompt@);
        }
        d
    }

    /// Begins a round. Afterwards the generation is over, or the target has to
    /// check `pending`, or the target's own token is due. The counters of drafted
    /// tokens hold as long as the generated tokens leave room for them.
    pub fn draft(&mut self)
        requires
            old(self).wf(),
            old(self).phase is Ready,
            old(self).generated@.len() <= usize::MAX / 32,
        ensures
            final(self).wf(),
            final(self)@ == old(self)@.after_draft(),
    {
        if self.generated.len() >= self.max_tokens || self.next.is_none() {
            self.phase = Phase::Done;
            return ;
        }
        let draft = prompt_lookup(&self.full_seq, self.draft_k);
        proof {
            draft_is_a_copy(self.full_seq@, self.draft_k as nat);
        }
        let len: usize = draft.len();
        self.pending = draft;
        if len == 0 {
            self.phase = Phase::Correcting;
        } else {
            self.spec_rounds = self.spec_rounds + 1;
            self.spec_drafted = self.spec_drafted + len;
            self.phase = Phase::Verifying;
        }
    }

    /// The target has checked the pending draft: `greedy[i]` is its choice after
    /// `pending[i]`. Returns how many cache positions of the draft to keep and
    /// the tokens that were emitted.
    pub fn verify(&mut self, greedy: &Vec<u32>) -> (r: (usize, Vec<u32>))
        requires
            old(self).wf(),
            old(self).phase is Verifying,
            greedy@.len() <= old(self).pending@.len(),
        ensures
            final(self).wf(),
            final(self)@ == old(self)@.after_verify(greedy@),
            r.0 == old(self)@.agreed(greedy@),
            r.1@ == old(self)@.verified_tokens(greedy@),
    {
        let choice: u32 = match self.next {
            Some(t) => t,
            None => 0,
        };
        let m: usize = count_agreed(choice, greedy, &self.pending);
        let room: usize = self.max_tokens - self.generated.len();
        let e: usize = count_emitted(&self.pending, m, self.eos_token, room);
        let tokens = copy_range(&self.pending, 0, e);
        proof {
            assert(self.pending@.take(m as int).take(e as int) =~= self.pending@.subrange(
                0,
                e as int,
            ));
        }
        let ghost before = *self;
        let mut i: usize = 0;
        while i < e
            invariant
                i <= e == tokens@.len(),
                self.generated@ == before.generated@ + tokens@.take(i as int),
                self.full_seq@ == before.full_seq@ + tokens@.take(i as int),
                *self == (Decoder {
                    generated: self.generated,
                    full_seq: self.full_seq,
                    ..before
                }),
            decreases e - i,
        {
            self.generated.push(tokens[i]);
            self.full_seq.push(tokens[i]);
            i = i + 1;
            assert(tokens@.take(i as int) =~= tokens@.take(i - 1).push(tokens@[i - 1]));
            assert(self.generated@ =~= before.generated@ + tokens@.take(i as int));
            assert(self.full_seq@ =~= before.full_seq@ + tokens@.take(i as int));
        }
        assert(tokens@.take(e as int) =~= tokens@);
        self.spec_accepted = self.spec_accepted + m;
        if e < m || self.generated.len() >= self.max_tokens {
            self.next = None;
            self.phase = Phase::Done;
        } else {
            if m > 0 {
                self.next = Some(greedy[m - 1]);
            }
            if m == self.pending.len() {
                self.draft_k = if self.draft_k + 2 <= DRAFT_K_MAX {
                    self.draft_k + 2
                } else {
                    DRAFT_K_MAX
                };
            } else if m == 0 && self.draft_k > 1 {
                self.draft_k = self.draft_k - 1;
            }
            self.phase = Phase::Correcting;
        }
        proof {
            assert(self@.prompt =~= before@.prompt);
            assert(self.full_seq@ =~= self@.context());
            assert(self@ == before@.after_verify(greedy@));
        }
        (m, tokens)
    }

    /// Takes the target's own token. Returns it, or `None` where it ends the
    /// text.
    pub fn correct(&mut self) -> (r: Option<u32>)
        requires
            old(self).wf(),
            old(self).phase is Correcting,
        ensures
            final(self).wf(),
            final(self)@ == old(self)@.after_correct(),
            r == if old(self).next == old(self).eos_token {
                None::<u32>
            } else {
                old(self).next
            },
    {
        let ghost before = *self;
        match self.next {
            Some(anchor) => {
                if is_eos(anchor, self.eos_token) {
                    self.phase = Phase::Done;
                    None
                } else {
                    self.generated.push(anchor);
                    self.full_seq.push(anchor);
                    self.next = None;
                    self.phase = Phase::Stepping;
                    proof {
                        assert(self@.prompt =~= before@.prompt);
                        assert(self.full_seq@ =~= self@.context());
                    }
                    Some(anchor)
                }
            },
            None => None,
        }
    }

    /// The target has processed the token taken from it and chose `next` after
    /// it; `evicted` cache positions left the window. Returns the block of
    /// tokens to index, where one is complete.
    pub fn advance(&mut self, next: Option<u32>, evicted: usize) -> (r: Option<Vec<u32>>)
        requires
            old(self).wf(),
            old(self).phase is Stepping,
            old(self).window_start + evicted <= usize::MAX,
        ensures
            final(self).wf(),
            final(self)@ == old(self)@.after_advance(next, evicted as nat),
            match r {
                Some(block) => old(self)@.flushes(evicted as nat) && block@ == old(self)@.buffered(
                    evicted as nat,
                ),
                None => !old(self)@.flushes(evicted as nat),
            },
    {
        let ghost before = *self;
        let n: usize = self.full_seq.len();
        let from: usize = if self.window_start <= n {
            self.window_start
        } else {
            n
        };
        let end: usize = self.window_start + evicted;
        let to: usize = if end <= n {
            end
        } else {
            n
        };
        let mut left = copy_range(&self.full_seq, from, to);
        self.evict_buf.append(&mut left);
        self.window_start = end;
        self.next = next;
        self.phase = Phase::Ready;
        assert(self.evict_buf@ == before@.buffered(evicted as nat));
        if evicted > 0 && self.evict_buf.len() >= EVICT_BLOCK {
            let mut block: Vec<u32> = Vec::new();
            block.append(&mut self.evict_buf);
            assert(block@ =~= before@.buffered(evicted as nat));
            Some(block)
        } else {
            None
        }
    }
}

} // verus!
