//! Drafts by grammar: which category of word tends to follow which, and whether
//! a draft keeps to a predicted sequence of categories.

use std::collections::HashMap;
use vstd::prelude::*;

use crate::ranking::{
    is_ranking, rank_desc, ranking_exists, ranking_is_a_permutation, ranking_of,
};

verus! {

broadcast use vstd::std_specs::hash::group_hash_axioms;

/// The category of a word.
#[derive(Debug, Clone, Copy, PartialEq, Eq, Hash, Structural)]
pub enum GrammarCategory {
    Article,
    Noun,
    Verb,
    Adjective,
    Adverb,
    Preposition,
    Conjunction,
    Punctuation,
    Unknown,
}

/// How many categories there are.
pub const CATEGORIES: usize = 9;

/// The place of a category in their list.
pub open spec fn place(c: GrammarCategory) -> int {
    match c {
        GrammarCategory::Article => 0,
        GrammarCategory::Noun => 1,
        GrammarCategory::Verb => 2,
        GrammarCategory::Adjective => 3,
        GrammarCategory::Adverb => 4,
        GrammarCategory::Preposition => 5,
        GrammarCategory::Conjunction => 6,
        GrammarCategory::Punctuation => 7,
        GrammarCategory::Unknown => 8,
    }
}

fn place_of(c: GrammarCategory) -> (i: usize)
    ensures
        i == place(c),
        i < CATEGORIES,
{
    match c {
        GrammarCategory::Article => 0,
        GrammarCategory::Noun => 1,
        GrammarCategory::Verb => 2,
        GrammarCategory::Adjective => 3,
        GrammarCategory::Adverb => 4,
        GrammarCategory::Preposition => 5,
        GrammarCategory::Conjunction => 6,
        GrammarCategory::Punctuation => 7,
        GrammarCategory::Unknown => 8,
    }
}

/// A sequence of categories.
pub type SyntacticTemplate = Vec<GrammarCategory>;

/// What was seen after a category, with how often.
pub type Followers = Seq<(GrammarCategory, u32)>;

/// `row` after `next` was seen once more.
pub open spec fn bumped(row: Followers, next: GrammarCategory) -> Followers
    decreases row.len(),
{
    if row.len() == 0 {
        seq![(next, 1u32)]
    } else if row[0].0 == next {
        row.update(0, (next, (row[0].1 + 1) as u32))
    } else {
        seq![row[0]] + bumped(row.skip(1), next)
    }
}

/// The rows of all categories after one was seen before another.
pub open spec fn seen(
    rows: Seq<Followers>,
    current: GrammarCategory,
    next: GrammarCategory,
) -> Seq<Followers> {
    rows.update(place(current), bumped(rows[place(current)], next))
}

/// The rows after the neighbours among the first `n` categories of a template
/// were seen.
pub open spec fn seen_template(
    rows: Seq<Followers>,
    template: Seq<GrammarCategory>,
    n: int,
) -> Seq<Followers>
    decreases n,
{
    if n < 2 {
        rows
    } else {
        seen(seen_template(rows, template, n - 1), template[n - 2], template[n - 1])
    }
}

/// The rows after all neighbours in the first `n` templates were seen.
pub open spec fn seen_all(
    rows: Seq<Followers>,
    templates: Seq<SyntacticTemplate>,
    n: int,
) -> Seq<Followers>
    decreases n,
{
    if n <= 0 {
        rows
    } else {
        let t = templates[n - 1]@;
        seen_template(seen_all(rows, templates, n - 1), t, t.len() as int)
    }
}

/// The keys by which followers are ranked: how often they were seen.
pub open spec fn count_keys(row: Followers) -> Seq<i128> {
    row.map_values(|e: (GrammarCategory, u32)| e.1 as i128)
}

/// Followers, most frequent first; equally frequent ones keep their order.
pub open spec fn by_frequency(row: Followers) -> Followers {
    ranking_of(count_keys(row)).map_values(|i: usize| row[i as int])
}

/// What was learned of grammar.
pub struct SyntacticSkeleton {
    /// For each category what was seen after it, most frequent first.
    pub transitions: Vec<Vec<(GrammarCategory, u32)>>,
    /// The category of known tokens.
    pub lexicon: HashMap<u32, GrammarCategory>,
}

/// The most likely categories to come, one after the other.
pub open spec fn predicted(rows: Seq<Followers>, current: GrammarCategory, steps: nat) -> Seq<
    GrammarCategory,
>
    decreases steps,
{
    let row = rows[place(current)];
    if steps == 0 || row.len() == 0 {
        Seq::empty()
    } else {
        seq![row[0].0] + predicted(rows, row[0].0, (steps - 1) as nat)
    }
}

/// How many neighbours the first `n` templates hold.
pub open spec fn neighbours(templates: Seq<SyntacticTemplate>, n: int) -> nat
    decreases n,
{
    if n <= 0 {
        0
    } else {
        neighbours(templates, n - 1) + templates[n - 1]@.len()
    }
}

/// No count of `rows` exceeds `max`.
pub open spec fn counts_below(rows: Seq<Followers>, max: int) -> bool {
    forall|c: int, i: int|
        0 <= c < rows.len() && 0 <= i < rows[c].len() ==> (#[trigger] rows[c][i]).1 <= max
}

proof fn bumped_grows_by_one(row: Followers, next: GrammarCategory, max: int)
    requires
        0 <= max < u32::MAX,
        forall|i: int| 0 <= i < row.len() ==> (#[trigger] row[i]).1 <= max,
    ensures
        forall|i: int|
            0 <= i < bumped(row, next).len() ==> (#[trigger] bumped(row, next)[i]).1 <= max + 1,
    decreases row.len(),
{
    if row.len() > 0 && row[0].0 != next {
        let rest = row.skip(1);
        assert forall|i: int| 0 <= i < rest.len() implies (#[trigger] rest[i]).1 <= max by {
            assert(rest[i] == row[i + 1]);
        }
        bumped_grows_by_one(rest, next, max);
        let b = bumped(row, next);
        assert forall|i: int| 0 <= i < b.len() implies (#[trigger] b[i]).1 <= max + 1 by {
            if i > 0 {
                assert(b[i] == bumped(rest, next)[i - 1]);
            }
        }
    }
}

fn bump(row: &mut Vec<(GrammarCategory, u32)>, next: GrammarCategory)
    requires
        forall|i: int| 0 <= i < old(row)@.len() ==> (#[trigger] old(row)@[i]).1 < u32::MAX,
    ensures
        final(row)@ == bumped(old(row)@, next),
{
    let ghost all = row@;
    let mut i: usize = 0;
    assert(all.take(0) + bumped(all.skip(0), next) =~= bumped(all, next)) by {
        assert(all.skip(0) =~= all);
    }
    while i < row.len()
        invariant
            i <= all.len(),
            row@ == all,
            all == old(row)@,
            forall|k: int| 0 <= k < all.len() ==> (#[trigger] all[k]).1 < u32::MAX,
            all.take(i as int) + bumped(all.skip(i as int), next) == bumped(all, next),
        decreases all.len() - i,
    {
        let (cat, count) = row[i];
        if cat == next {
            row.set(i, (cat, count + 1));
            proof {
                let rest = all.skip(i as int);
                assert(rest[0] == all[i as int]);
                assert(row@ =~= all.take(i as int) + rest.update(0, (next, (count + 1) as u32)));
            }
            return ;
        }
        proof {
            let rest = all.skip(i as int);
            assert(rest.skip(1) =~= all.skip(i + 1));
            assert(all.take(i as int) + (seq![rest[0]] + bumped(rest.skip(1), next)) =~= all.take(
                i + 1,
            ) + bumped(all.skip(i + 1), next));
        }
        i = i + 1;
    }
    row.push((next, 1));
    assert(all.skip(i as int) =~= Seq::<(GrammarCategory, u32)>::empty());
    assert(row@ =~= all.take(i as int) + bumped(all.skip(i as int), next));
}

fn sort_row(row: &Vec<(GrammarCategory, u32)>) -> (r: Vec<(GrammarCategory, u32)>)
    ensures
        r@ == by_frequency(row@),
{
    let mut keys: Vec<i128> = Vec::new();
    let mut i: usize = 0;
    while i < row.len()
        invariant
            i <= row@.len(),
            keys@ == count_keys(row@).take(i as int),
        decreases row@.len() - i,
    {
        let (_cat, count) = row[i];
        keys.push(count as i128);
        i = i + 1;
        assert(keys@ =~= count_keys(row@).take(i as int));
    }
    assert(keys@ =~= count_keys(row@));
    let order = rank_desc(&keys);
    let mut r: Vec<(GrammarCategory, u32)> = Vec::new();
    let mut k: usize = 0;
    while k < order.len()
        invariant
            k <= order@.len(),
            keys@.len() == row@.len(),
            is_ranking(keys@, order@),
            order@ == ranking_of(count_keys(row@)),
            r@ == by_frequency(row@).take(k as int),
        decreases order@.len() - k,
    {
        assert(0 <= order@[k as int] < keys@.len());
        r.push(row[order[k]]);
        k = k + 1;
        assert(r@ =~= by_frequency(row@).take(k as int));
    }
    assert(r@ =~= by_frequency(row@));
    r
}

impl SyntacticSkeleton {
    /// There is a row for each category.
    pub open spec fn wf(&self) -> bool {
        self.transitions@.len() == CATEGORIES
    }

    /// What was seen after each category.
    pub open spec fn rows(&self) -> Seq<Followers> {
        self.transitions@.map_values(|v: Vec<(GrammarCategory, u32)>| v@)
    }

    /// The category of a token.
    pub open spec fn category(&self, token_id: u32) -> GrammarCategory {
        if self.lexicon@.contains_key(token_id) {
            self.lexicon@[token_id]
        } else {
            GrammarCategory::Unknown
        }
    }

    /// Nothing learned yet.
    pub fn new() -> (s: SyntacticSkeleton)
        ensures
            s.wf(),
            s.rows() == Seq::new(CATEGORIES as nat, |i: int| Followers::empty()),
            s.lexicon@ == Map::<u32, GrammarCategory>::empty(),
    {
        let mut transitions: Vec<Vec<(GrammarCategory, u32)>> = Vec::new();
        let mut i: usize = 0;
        while i < CATEGORIES
            invariant
                i <= CATEGORIES,
                transitions@.len() == i,
                forall|k: int| 0 <= k < i ==> (#[trigger] transitions@[k])@ == Followers::empty(),
            decreases CATEGORIES - i,
        {
            transitions.push(Vec::new());
            i = i + 1;
        }
        let s = SyntacticSkeleton { transitions, lexicon: HashMap::new() };
        assert(s.rows() =~= Seq::new(CATEGORIES as nat, |i: int| Followers::empty()));
        s
    }

    /// Learns from templates which categories follow which.
    pub fn train_from_templates(&mut self, templates: &Vec<SyntacticTemplate>)
        requires
            old(self).wf(),
            exists|max: int| #[trigger]
                counts_below(old(self).rows(), max) && 0 <= max && max + neighbours(
                    templates@,
                    templates@.len() as int,
                ) <= u32::MAX,
        ensures
            final(self).wf(),
            final(self).lexicon == old(self).lexicon,
            final(self).rows() == seen_all(
                old(self).rows(),
                templates@,
                templates@.len() as int,
            ).map_values(|row: Followers| by_frequency(row)),
    {
        let ghost first = self.rows();
        let ghost max = choose|max: int| #[trigger]
            counts_below(first, max) && 0 <= max && max + neighbours(
                templates@,
                templates@.len() as int,
            ) <= u32::MAX;
        let ghost total = neighbours(templates@, templates@.len() as int);
        let mut t: usize = 0;
        while t < templates.len()
            invariant
                t <= templates@.len(),
                self.wf(),
                self.lexicon == old(self).lexicon,
                0 <= max,
                total == neighbours(templates@, templates@.len() as int),
                max + total <= u32::MAX,
                self.rows() == seen_all(first, templates@, t as int),
                counts_below(self.rows(), max + neighbours(templates@, t as int)),
            decreases templates@.len() - t,
        {
            let template = &templates[t];
            let ghost start = self.rows();
            let ghost base = max + neighbours(templates@, t as int);
            proof {
                neighbours_grow(templates@, t + 1, templates@.len() as int);
            }
            let mut i: usize = 1;
            while i < template.len()
                invariant
                    1 <= i,
                    i <= template@.len() || i == 1,
                    self.wf(),
                    self.lexicon == old(self).lexicon,
                    0 <= base,
                    base + template@.len() <= u32::MAX,
                    self.rows() == seen_template(start, template@, i as int),
                    counts_below(self.rows(), base + i - 1),
                decreases template@.len() - i,
            {
                let current = template[i - 1];
                let next = template[i];
                let c: usize = place_of(current);
                let ghost rows = self.rows();
                let ghost row = rows[c as int];
                assert(row == self.transitions@[c as int]@);
                assert forall|k: int| 0 <= k < row.len() implies (#[trigger] row[k]).1 < u32::MAX by {
                    assert(rows[c as int][k].1 <= base + i - 1);
                }
                bump(&mut self.transitions[c], next);
                proof {
                    assert(self.rows() =~= rows.update(c as int, bumped(row, next)));
                    assert forall|k: int| 0 <= k < row.len() implies (#[trigger] row[k]).1 <= base
                        + i - 1 by {
                        assert(rows[c as int][k].1 <= base + i - 1);
                    }
                    bumped_grows_by_one(row, next, base + i - 1);
                    assert forall|a: int, b: int|
                        0 <= a < self.rows().len() && 0 <= b < self.rows()[a].len() implies (
                    #[trigger] self.rows()[a][b]).1 <= base + i by {
                        if a != c {
                            assert(self.rows()[a][b] == rows[a][b]);
                        }
                    }
                }
                i = i + 1;
            }
            proof {
                let n = template@.len() as int;
                if n < 2 {
                    assert(self.rows() == seen_template(start, template@, n));
                }
                assert(counts_below(self.rows(), max + neighbours(templates@, t + 1))) by {
                    assert forall|a: int, b: int|
                        0 <= a < self.rows().len() && 0 <= b < self.rows()[a].len() implies (
                    #[trigger] self.rows()[a][b]).1 <= max + neighbours(templates@, t + 1) by {
                        assert(self.rows()[a][b].1 <= base + i - 1);
                    }
                }
            }
            t = t + 1;
        }
        let ghost trained = self.rows();
        let mut c: usize = 0;
        while c < CATEGORIES
            invariant
                c <= CATEGORIES,
                self.wf(),
                trained.len() == CATEGORIES,
                self.lexicon == old(self).lexicon,
                forall|k: int|
                    0 <= k < CATEGORIES ==> (#[trigger] self.transitions@[k])@ == if k < c {
                        by_frequency(trained[k])
                    } else {
                        trained[k]
                    },
            decreases CATEGORIES - c,
        {
            let sorted = sort_row(&self.transitions[c]);
            self.transitions.set(c, sorted);
            c = c + 1;
        }
        assert(self.rows() =~= trained.map_values(|row: Followers| by_frequency(row)));
    }

    /// Records the category of a token.
    pub fn add_lexicon(&mut self, token_id: u32, category: GrammarCategory)
        ensures
            final(self).transitions == old(self).transitions,
            final(self).lexicon@ == old(self).lexicon@.insert(token_id, category),
    {
        self.lexicon.insert(token_id, category);
    }

    /// The category of a token.
    pub fn get_category(&self, token_id: u32) -> (c: GrammarCategory)
        ensures
            c == self.category(token_id),
    {
        match self.lexicon.get(&token_id) {
            Some(c) => *c,
            None => GrammarCategory::Unknown,
        }
    }

    /// The most likely categories of the next `steps` tokens.
    pub fn predict_template(&self, last_token: u32, steps: usize) -> (r: Vec<GrammarCategory>)
        requires
            self.wf(),
        ensures
            r@ == predicted(self.rows(), self.category(last_token), steps as nat),
    {
        let mut r: Vec<GrammarCategory> = Vec::new();
        let mut current = self.get_category(last_token);
        let ghost whole = predicted(self.rows(), current, steps as nat);
        let mut left: usize = steps;
        assert(r@ + whole =~= whole);
        while left > 0
            invariant
                self.wf(),
                whole == predicted(self.rows(), self.category(last_token), steps as nat),
                whole == r@ + predicted(self.rows(), current, left as nat),
            decreases left,
        {
            let row = &self.transitions[place_of(current)];
            assert(row@ == self.rows()[place(current)]);
            if row.len() == 0 {
                assert(r@ + Seq::<GrammarCategory>::empty() =~= r@);
                return r;
            }
            let ghost before = r@;
            let (next, _count) = row[0];
            current = next;
            r.push(current);
            left = left - 1;
            assert(before + (seq![current] + predicted(self.rows(), current, left as nat)) =~= r@
                + predicted(self.rows(), current, left as nat));
        }
        assert(r@ + Seq::<GrammarCategory>::empty() =~= r@);
        r
    }

    /// Whether tokens keep to a template. Tokens of unknown category fit
    /// everywhere; there may not be more tokens than categories.
    pub fn conforms_to_template(&self, tokens: &[u32], template: &[GrammarCategory]) -> (b: bool)
        ensures
            b == (tokens@.len() <= template@.len() && forall|i: int|
                0 <= i < tokens@.len() ==> self.category(#[trigger] tokens@[i])
                    == GrammarCategory::Unknown || self.category(tokens@[i]) == template@[i]),
    {
        if tokens.len() > template.len() {
            return false;
        }
        let mut i: usize = 0;
        while i < tokens.len()
            invariant
                i <= tokens@.len() <= template@.len(),
                forall|k: int|
                    0 <= k < i ==> self.category(#[trigger] tokens@[k]) == GrammarCategory::Unknown
                        || self.category(tokens@[k]) == template@[k],
            decreases tokens@.len() - i,
        {
            let cat = self.get_category(tokens[i]);
            if cat != GrammarCategory::Unknown && cat != template[i] {
                assert(self.category(tokens@[i as int]) != GrammarCategory::Unknown);
                return false;
            }
            i = i + 1;
        }
        true
    }
}

// ─── Laws of frequency ───────────────────────────────────────────────────────

/// How often `c` was seen, by a row.
pub open spec fn count_in(row: Followers, c: GrammarCategory) -> int
    decreases row.len(),
{
    if row.len() == 0 {
        0
    } else if row[0].0 == c {
        row[0].1 as int
    } else {
        count_in(row.skip(1), c)
    }
}

/// A row lists no category twice.
pub open spec fn lists_once(row: Followers) -> bool {
    forall|i: int, j: int|
        0 <= i < j < row.len() ==> (#[trigger] row[i]).0 != (#[trigger] row[j]).0
}

/// How often `b` comes right after `a` among the first `n` categories of a template.
pub open spec fn follows(
    template: Seq<GrammarCategory>,
    n: int,
    a: GrammarCategory,
    b: GrammarCategory,
) -> int
    decreases n,
{
    if n < 2 {
        0
    } else {
        follows(template, n - 1, a, b) + if template[n - 2] == a && template[n - 1] == b {
            1int
        } else {
            0
        }
    }
}

/// How often `b` comes right after `a` in the first `n` templates.
pub open spec fn follows_in_all(
    templates: Seq<SyntacticTemplate>,
    n: int,
    a: GrammarCategory,
    b: GrammarCategory,
) -> int
    decreases n,
{
    if n <= 0 {
        0
    } else {
        follows_in_all(templates, n - 1, a, b) + follows(
            templates[n - 1]@,
            templates[n - 1]@.len() as int,
            a,
            b,
        )
    }
}

proof fn count_is_entry(row: Followers, i: int)
    requires
        lists_once(row),
        0 <= i < row.len(),
    ensures
        count_in(row, row[i].0) == row[i].1,
    decreases row.len(),
{
    if i > 0 {
        let rest = row.skip(1);
        assert(row[0].0 != row[i].0);
        assert(rest[i - 1] == row[i]);
        assert(lists_once(rest)) by {
            assert forall|x: int, y: int| 0 <= x < y < rest.len() implies (#[trigger] rest[x]).0
                != (#[trigger] rest[y]).0 by {
                assert(row[x + 1].0 != row[y + 1].0);
            }
        }
        count_is_entry(rest, i - 1);
    }
}

proof fn count_without_entry(row: Followers, c: GrammarCategory)
    ensures
        count_in(row, c) == 0 || exists|i: int|
            0 <= i < row.len() && (#[trigger] row[i]).0 == c && row[i].1 == count_in(row, c),
        (forall|i: int| 0 <= i < row.len() ==> (#[trigger] row[i]).0 != c) ==> count_in(row, c)
            == 0,
    decreases row.len(),
{
    if row.len() > 0 && row[0].0 != c {
        let rest = row.skip(1);
        count_without_entry(rest, c);
        if count_in(rest, c) != 0 {
            let i = choose|i: int|
                0 <= i < rest.len() && (#[trigger] rest[i]).0 == c && rest[i].1 == count_in(
                    rest,
                    c,
                );
            assert(row[i + 1] == rest[i]);
        }
        if forall|i: int| 0 <= i < row.len() ==> (#[trigger] row[i]).0 != c {
            assert forall|i: int| 0 <= i < rest.len() implies (#[trigger] rest[i]).0 != c by {
                assert(rest[i] == row[i + 1]);
            }
        }
    } else if row.len() > 0 {
        assert(row[0].0 == c);
    }
}

proof fn bumped_counts_one_more(row: Followers, next: GrammarCategory, c: GrammarCategory)
    requires
        lists_once(row),
        forall|i: int| 0 <= i < row.len() ==> (#[trigger] row[i]).1 < u32::MAX,
    ensures
        lists_once(bumped(row, next)),
        forall|i: int|
            0 <= i < bumped(row, next).len() ==> (#[trigger] bumped(row, next)[i]).0 == next
                || exists|j: int| 0 <= j < row.len() && row[j].0 == bumped(row, next)[i].0,
        count_in(bumped(row, next), c) == count_in(row, c) + if c == next {
            1int
        } else {
            0
        },
    decreases row.len(),
{
    let b = bumped(row, next);
    if row.len() == 0 {
        assert(b.skip(1) =~= Seq::<(GrammarCategory, u32)>::empty());
        assert(count_in(b.skip(1), c) == 0);
    } else if row[0].0 == next {
        assert(b.skip(1) =~= row.skip(1));
        assert forall|i: int| 0 <= i < b.len() implies (#[trigger] b[i]).0 == next || exists|j: int|
            0 <= j < row.len() && row[j].0 == b[i].0 by {
            assert(row[i].0 == b[i].0);
        }
        assert forall|i: int, j: int| 0 <= i < j < b.len() implies (#[trigger] b[i]).0 != (
        #[trigger] b[j]).0 by {
            assert(row[i].0 != row[j].0);
        }
    } else {
        let rest = row.skip(1);
        assert(lists_once(rest)) by {
            assert forall|x: int, y: int| 0 <= x < y < rest.len() implies (#[trigger] rest[x]).0
                != (#[trigger] rest[y]).0 by {
                assert(row[x + 1].0 != row[y + 1].0);
            }
        }
        assert forall|i: int| 0 <= i < rest.len() implies (#[trigger] rest[i]).1 < u32::MAX by {
            assert(rest[i] == row[i + 1]);
        }
        bumped_counts_one_more(rest, next, c);
        let br = bumped(rest, next);
        assert(b.skip(1) =~= br);
        assert forall|i: int| 0 <= i < b.len() implies (#[trigger] b[i]).0 == next || exists|j: int|
            0 <= j < row.len() && row[j].0 == b[i].0 by {
            if i == 0 {
                assert(row[0].0 == b[0].0);
            } else {
                assert(b[i] == br[i - 1]);
                if b[i].0 != next {
                    let j = choose|j: int| 0 <= j < rest.len() && rest[j].0 == br[i - 1].0;
                    assert(row[j + 1].0 == b[i].0);
                }
            }
        }
        assert forall|i: int, j: int| 0 <= i < j < b.len() implies (#[trigger] b[i]).0 != (
        #[trigger] b[j]).0 by {
            assert(b[j] == br[j - 1]);
            if i > 0 {
                assert(b[i] == br[i - 1]);
            } else if br[j - 1].0 != next {
                let k = choose|k: int| 0 <= k < rest.len() && rest[k].0 == br[j - 1].0;
                assert(row[0].0 != row[k + 1].0);
            }
        }
    }
}

/// Sorting a row by frequency changes no count, and puts the largest first.
proof fn sorting_keeps_counts(row: Followers, c: GrammarCategory)
    requires
        lists_once(row),
        row.len() <= usize::MAX,
    ensures
        ({
            let r = by_frequency(row);
            &&& r.len() == row.len()
            &&& lists_once(r)
            &&& count_in(r, c) == count_in(row, c)
            &&& r.len() > 0 ==> count_in(row, r[0].0) >= count_in(row, c)
        }),
{
    let keys = count_keys(row);
    ranking_exists(keys);
    let order = ranking_of(keys);
    ranking_is_a_permutation(keys, order);
    let r = by_frequency(row);
    assert forall|i: int, j: int| 0 <= i < j < r.len() implies (#[trigger] r[i]).0 != (
    #[trigger] r[j]).0 by {
        assert(order[i] != order[j]);
        assert(0 <= order[i] < row.len() && 0 <= order[j] < row.len());
        if order[i] < order[j] {
            assert(row[order[i] as int].0 != row[order[j] as int].0);
        } else {
            assert(row[order[j] as int].0 != row[order[i] as int].0);
        }
    }
    if r.len() > 0 {
        assert(0 <= order[0] < row.len());
        count_is_entry(row, order[0] as int);
    }
    if exists|i: int| 0 <= i < row.len() && (#[trigger] row[i]).0 == c {
        let i = choose|i: int| 0 <= i < row.len() && (#[trigger] row[i]).0 == c;
        count_is_entry(row, i);
        assert(order.contains(i as usize));
        let k = choose|k: int| 0 <= k < order.len() && order[k] == i as usize;
        assert(r[k] == row[i]);
        count_is_entry(r, k);
        if k > 0 {
            assert(crate::ranking::precedes(keys, order[0] as int, order[k] as int));
            assert(keys[order[0] as int] == row[order[0] as int].1 as i128);
            assert(keys[i] == row[i].1 as i128);
        }
    } else {
        count_without_entry(row, c);
        assert forall|k: int| 0 <= k < r.len() implies (#[trigger] r[k]).0 != c by {
            assert(0 <= order[k] < row.len());
            assert(r[k] == row[order[k] as int]);
        }
        count_without_entry(r, c);
    }
}

/// Every row lists each category once.
pub open spec fn rows_list_once(rows: Seq<Followers>) -> bool {
    &&& rows.len() == CATEGORIES
    &&& forall|k: int| 0 <= k < rows.len() ==> lists_once(#[trigger] rows[k])
}

proof fn template_is_counted(
    rows: Seq<Followers>,
    template: Seq<GrammarCategory>,
    n: int,
    max: int,
    a: GrammarCategory,
    b: GrammarCategory,
)
    requires
        rows_list_once(rows),
        0 <= n <= template.len(),
        0 <= max,
        max + n <= u32::MAX,
        counts_below(rows, max),
    ensures
        rows_list_once(seen_template(rows, template, n)),
        counts_below(seen_template(rows, template, n), max + n),
        count_in(seen_template(rows, template, n)[place(a)], b) == count_in(rows[place(a)], b)
            + follows(template, n, a, b),
    decreases n,
{
    if n >= 2 {
        template_is_counted(rows, template, n - 1, max, a, b);
        let before = seen_template(rows, template, n - 1);
        let after = seen_template(rows, template, n);
        let c = template[n - 2];
        let row = before[place(c)];
        assert forall|i: int| 0 <= i < row.len() implies (#[trigger] row[i]).1 <= max + n - 1 by {
            assert(before[place(c)][i].1 <= max + n - 1);
        }
        bumped_grows_by_one(row, template[n - 1], max + n - 1);
        bumped_counts_one_more(row, template[n - 1], b);
        assert forall|k: int, i: int| 0 <= k < after.len() && 0 <= i < after[k].len() implies (
        #[trigger] after[k][i]).1 <= max + n by {
            if k != place(c) {
                assert(before[k][i].1 <= max + n - 1);
            }
        }
        assert(place(a) == place(c) ==> a == c);
    }
}

proof fn templates_are_counted(
    rows: Seq<Followers>,
    templates: Seq<SyntacticTemplate>,
    n: int,
    max: int,
    a: GrammarCategory,
    b: GrammarCategory,
)
    requires
        rows_list_once(rows),
        0 <= n <= templates.len(),
        0 <= max,
        max + neighbours(templates, n) <= u32::MAX,
        counts_below(rows, max),
    ensures
        rows_list_once(seen_all(rows, templates, n)),
        counts_below(seen_all(rows, templates, n), max + neighbours(templates, n)),
        count_in(seen_all(rows, templates, n)[place(a)], b) == count_in(rows[place(a)], b)
            + follows_in_all(templates, n, a, b),
    decreases n,
{
    if n > 0 {
        templates_are_counted(rows, templates, n - 1, max, a, b);
        let t = templates[n - 1]@;
        template_is_counted(
            seen_all(rows, templates, n - 1),
            t,
            t.len() as int,
            max + neighbours(templates, n - 1),
            a,
            b,
        );
    }
}

proof fn short_rows(row: Followers)
    requires
        lists_once(row),
    ensures
        row.len() <= CATEGORIES,
{
    let places = row.map_values(|e: (GrammarCategory, u32)| place(e.0));
    assert(places.no_duplicates()) by {
        assert forall|i: int, j: int| 0 <= i < j < places.len() implies places[i] != places[j] by {
            assert(row[i].0 != row[j].0);
        }
    }
    places.unique_seq_to_set();
    let all = vstd::set_lib::set_int_range(0, CATEGORIES as int);
    vstd::set_lib::lemma_int_range(0, CATEGORIES as int);
    assert(places.to_set().subset_of(all)) by {
        assert forall|x: int| places.to_set().contains(x) implies all.contains(x) by {
            let i = choose|i: int| 0 <= i < places.len() && places[i] == x;
            assert(places[i] == place(row[i].0));
        }
    }
    vstd::set_lib::lemma_len_subset(places.to_set(), all);
}

/// What training does to the counts: after it, `b` counts as having followed `a` as
/// often as before and once more for each place in the templates where it comes right
/// after `a`. What is predicted after `a` is the category that has followed it most
/// often, and nothing is predicted only where nothing ever has.
pub proof fn prediction_is_most_frequent(
    rows: Seq<Followers>,
    templates: Seq<SyntacticTemplate>,
    max: int,
    a: GrammarCategory,
    b: GrammarCategory,
    steps: nat,
)
    requires
        rows_list_once(rows),
        counts_below(rows, max),
        0 <= max,
        max + neighbours(templates, templates.len() as int) <= u32::MAX,
        steps > 0,
    ensures
        ({
            let n = templates.len() as int;
            let trained = seen_all(rows, templates, n).map_values(
                |row: Followers| by_frequency(row),
            );
            let guess = predicted(trained, a, steps);
            &&& rows_list_once(trained)
            &&& count_in(trained[place(a)], b) == count_in(rows[place(a)], b) + follows_in_all(
                templates,
                n,
                a,
                b,
            )
            &&& guess.len() > 0 ==> count_in(trained[place(a)], guess[0]) >= count_in(
                trained[place(a)],
                b,
            )
            &&& guess.len() == 0 ==> count_in(trained[place(a)], b) == 0
        }),
{
    let n = templates.len() as int;
    let plain = seen_all(rows, templates, n);
    let trained = plain.map_values(|row: Followers| by_frequency(row));
    templates_are_counted(rows, templates, n, max, a, b);
    assert forall|k: int| 0 <= k < trained.len() implies lists_once(#[trigger] trained[k]) by {
        short_rows(plain[k]);
        sorting_keeps_counts(plain[k], b);
    }
    let row = plain[place(a)];
    short_rows(row);
    sorting_keeps_counts(row, b);
    if row.len() > 0 {
        sorting_keeps_counts(row, by_frequency(row)[0].0);
    }
}

/// What a new skeleton predicts after its first training: nothing after a category that
/// nothing came after in the templates, and otherwise the category that came after it
/// most often.
pub proof fn first_training_predicts_most_frequent(
    templates: Seq<SyntacticTemplate>,
    c: GrammarCategory,
)
    requires
        neighbours(templates, templates.len() as int) <= u32::MAX,
    ensures
        ({
            let n = templates.len() as int;
            let empty = Seq::new(CATEGORIES as nat, |i: int| Followers::empty());
            let trained = seen_all(empty, templates, n).map_values(
                |row: Followers| by_frequency(row),
            );
            let guess = predicted(trained, c, 1);
            &&& guess.len() <= 1
            &&& guess.len() == 0 <==> forall|x: GrammarCategory| #[trigger]
                follows_in_all(templates, n, c, x) == 0
            &&& guess.len() > 0 ==> forall|x: GrammarCategory|
                follows_in_all(templates, n, c, guess[0]) >= #[trigger] follows_in_all(
                    templates,
                    n,
                    c,
                    x,
                )
        }),
{
    let n = templates.len() as int;
    let empty = Seq::new(CATEGORIES as nat, |i: int| Followers::empty());
    let plain = seen_all(empty, templates, n);
    let trained = plain.map_values(|row: Followers| by_frequency(row));
    let guess = predicted(trained, c, 1);
    assert(counts_below(empty, 0));
    assert(rows_list_once(empty));
    templates_are_counted(empty, templates, n, 0, c, c);
    assert(trained[place(c)].len() > 0 ==> predicted(trained, trained[place(c)][0].0, 0)
        == Seq::<GrammarCategory>::empty());
    assert forall|x: GrammarCategory| #[trigger] follows_in_all(templates, n, c, x) == count_in(
        trained[place(c)],
        x,
    ) by {
        prediction_is_most_frequent(empty, templates, 0, c, x, 1);
        assert(count_in(empty[place(c)], x) == 0);
    }
    assert forall|x: GrammarCategory| guess.len() == 0 implies #[trigger] follows_in_all(
        templates,
        n,
        c,
        x,
    ) == 0 by {
        prediction_is_most_frequent(empty, templates, 0, c, x, 1);
    }
    assert forall|x: GrammarCategory| guess.len() > 0 implies follows_in_all(
        templates,
        n,
        c,
        guess[0],
    ) >= #[trigger] follows_in_all(templates, n, c, x) by {
        prediction_is_most_frequent(empty, templates, 0, c, x, 1);
        assert(follows_in_all(templates, n, c, guess[0]) == count_in(trained[place(c)], guess[0]));
    }
    if guess.len() > 0 {
        let row = plain[place(c)];
        first_follower_was_seen(empty, templates, n, c);
        short_rows(row);
        sorting_keeps_counts(row, guess[0]);
        let r = by_frequency(row);
        ranking_exists(count_keys(row));
        let first = ranking_of(count_keys(row))[0];
        assert(trained[place(c)] == r);
        assert(guess[0] == r[0].0);
        assert(0 <= first < row.len());
        assert(plain[place(c)][first as int].1 > 0);
        count_is_entry(r, 0);
        assert(follows_in_all(templates, n, c, guess[0]) == count_in(r, guess[0]));
        assert(follows_in_all(templates, n, c, guess[0]) > 0);
    }
}

/// Every entry of a row of a skeleton that learnt from nothing was seen at least once.
proof fn first_follower_was_seen(
    empty: Seq<Followers>,
    templates: Seq<SyntacticTemplate>,
    n: int,
    c: GrammarCategory,
)
    requires
        empty == Seq::new(CATEGORIES as nat, |i: int| Followers::empty()),
        0 <= n <= templates.len(),
        neighbours(templates, templates.len() as int) <= u32::MAX,
    ensures
        all_seen(seen_all(empty, templates, n)),
    decreases n,
{
    if n > 0 {
        first_follower_was_seen(empty, templates, n - 1, c);
        neighbours_grow(templates, n, templates.len() as int);
        assert(counts_below(empty, 0));
        assert(rows_list_once(empty));
        templates_are_counted(empty, templates, n - 1, 0, c, c);
        let t = templates[n - 1]@;
        template_was_seen(
            seen_all(empty, templates, n - 1),
            t,
            t.len() as int,
            neighbours(templates, n - 1) as int,
        );
    }
}

/// Every entry was seen at least once.
spec fn all_seen(rows: Seq<Followers>) -> bool {
    forall|k: int, i: int|
        0 <= k < rows.len() && 0 <= i < rows[k].len() ==> (#[trigger] rows[k][i]).1 > 0
}

proof fn template_was_seen(
    rows: Seq<Followers>,
    template: Seq<GrammarCategory>,
    n: int,
    max: int,
)
    requires
        rows_list_once(rows),
        all_seen(rows),
        0 <= n <= template.len(),
        0 <= max,
        max + n <= u32::MAX,
        counts_below(rows, max),
    ensures
        all_seen(seen_template(rows, template, n)),
    decreases n,
{
    if n >= 2 {
        template_was_seen(rows, template, n - 1, max);
        template_is_counted(rows, template, n - 1, max, template[0], template[0]);
        let before = seen_template(rows, template, n - 1);
        let after = seen_template(rows, template, n);
        let c = template[n - 2];
        let row = before[place(c)];
        assert forall|i: int| 0 <= i < row.len() implies 0 < (#[trigger] row[i]).1 < u32::MAX by {
            assert(before[place(c)][i].1 <= max + n - 1);
        }
        bumped_was_seen(row, template[n - 1]);
        assert forall|k: int, i: int| 0 <= k < after.len() && 0 <= i < after[k].len() implies (
        #[trigger] after[k][i]).1 > 0 by {
            if k != place(c) {
                assert(before[k][i].1 > 0);
            }
        }
    }
}

proof fn bumped_was_seen(row: Followers, next: GrammarCategory)
    requires
        forall|i: int| 0 <= i < row.len() ==> 0 < (#[trigger] row[i]).1 < u32::MAX,
    ensures
        forall|i: int| 0 <= i < bumped(row, next).len() ==> (#[trigger] bumped(row, next)[i]).1 > 0,
    decreases row.len(),
{
    if row.len() > 0 && row[0].0 != next {
        let rest = row.skip(1);
        assert forall|i: int| 0 <= i < rest.len() implies 0 < (#[trigger] rest[i]).1 < u32::MAX by {
            assert(rest[i] == row[i + 1]);
        }
        bumped_was_seen(rest, next);
        let b = bumped(row, next);
        assert forall|i: int| 0 <= i < b.len() implies (#[trigger] b[i]).1 > 0 by {
            if i > 0 {
                assert(b[i] == bumped(rest, next)[i - 1]);
            } else {
                assert(b[0] == row[0]);
            }
        }
    }
}

proof fn neighbours_grow(templates: Seq<SyntacticTemplate>, a: int, b: int)
    requires
        a <= b,
    ensures
        neighbours(templates, a) <= neighbours(templates, b),
    decreases b,
{
    if a < b && b > 0 {
        neighbours_grow(templates, a, b - 1);
    }
}

/// Each category that is predicted is the first that the one before it lists, and the
/// prediction ends early only at a category that lists none.
pub proof fn predictions_follow_one_another(
    rows: Seq<Followers>,
    current: GrammarCategory,
    steps: nat,
    i: int,
)
    requires
        0 <= i <= predicted(rows, current, steps).len(),
    ensures
        ({
            let guess = predicted(rows, current, steps);
            let before = if i == 0 {
                current
            } else {
                guess[i - 1]
            };
            &&& guess.len() <= steps
            &&& i < guess.len() ==> rows[place(before)].len() > 0 && guess[i]
                == rows[place(before)][0].0
            &&& i == guess.len() && guess.len() < steps ==> rows[place(before)].len() == 0
        }),
    decreases steps,
{
    let row = rows[place(current)];
    if steps > 0 && row.len() > 0 {
        let next = row[0].0;
        let rest = predicted(rows, next, (steps - 1) as nat);
        let guess = predicted(rows, current, steps);
        assert(guess =~= seq![next] + rest);
        if i > 0 {
            predictions_follow_one_another(rows, next, (steps - 1) as nat, i - 1);
            if i > 1 {
                assert(guess[i - 1] == rest[i - 2]);
            }
            if i < guess.len() {
                assert(guess[i] == rest[i - 1]);
            }
        } else {
            predictions_follow_one_another(rows, next, (steps - 1) as nat, 0);
        }
    }
}

} // verus!
