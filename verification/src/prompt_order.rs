//! What the text of a system prompt depends on: the enabled sections, and their order
//! only as far as priorities are equal.

use vstd::prelude::*;

use crate::ranking::{
    is_ranking, precedes, ranking_exists, ranking_is_a_permutation, rankings_agree,
};
use crate::system_prompt_builder::{
    enabled_texts, order, priorities, PromptSection, SectionView, SystemPrompt,
};

verus! {

/// The texts of the enabled sections, in the order of the prompt.
pub open spec fn said(sections: Seq<PromptSection>) -> Seq<Seq<char>> {
    enabled_texts(sections, order(sections), sections.len() as int)
}

/// The enabled sections.
pub open spec fn enabled_only(sections: Seq<PromptSection>) -> Seq<PromptSection> {
    sections.filter(|s: PromptSection| s.enabled)
}

/// What sections hold.
pub open spec fn held_by(sections: Seq<PromptSection>) -> Seq<SectionView> {
    sections.map_values(|s: PromptSection| s@)
}

/// What the enabled sections of a prompt hold.
pub open spec fn shown(p: SystemPrompt) -> Seq<SectionView> {
    held_by(enabled_only(p.sections@))
}

/// No two of the sections have the same priority.
pub open spec fn priorities_differ(sections: Seq<SectionView>) -> bool {
    forall|i: int, j: int|
        0 <= i < j < sections.len() ==> (#[trigger] sections[i]).priority != (
        #[trigger] sections[j]).priority
}

spec fn closed_up(x: usize, i: int) -> usize {
    if x > i {
        (x - 1) as usize
    } else {
        x
    }
}

proof fn texts_without(
    sections: Seq<PromptSection>,
    r: Seq<usize>,
    r2: Seq<usize>,
    p: int,
    i: int,
    n: int,
)
    requires
        0 <= i < sections.len(),
        0 <= p < r.len(),
        r[p] == i,
        !sections[i].enabled,
        r2.len() == r.len() - 1,
        forall|k: int| 0 <= k < r.len() ==> 0 <= #[trigger] r[k] < sections.len(),
        forall|k: int| 0 <= k < r.len() && k != p ==> #[trigger] r[k] != i,
        forall|k: int|
            0 <= k < r2.len() ==> #[trigger] r2[k] == closed_up(
                r[if k < p {
                    k
                } else {
                    k + 1
                }],
                i,
            ),
        0 <= n <= r2.len(),
    ensures
        enabled_texts(sections.remove(i), r2, n) == enabled_texts(
            sections,
            r,
            if n <= p {
                n
            } else {
                n + 1
            },
        ),
    decreases n,
{
    if n > 0 {
        texts_without(sections, r, r2, p, i, n - 1);
        let from = if n - 1 < p {
            n - 1
        } else {
            n
        };
        assert(r2[n - 1] == closed_up(r[from], i));
        assert(sections.remove(i)[r2[n - 1] as int] == sections[r[from] as int]);
        if n == p + 1 {
            assert(enabled_texts(sections, r, p + 1) == enabled_texts(sections, r, p));
        }
    } else if p == 0 {
        assert(enabled_texts(sections, r, 0) == Seq::<Seq<char>>::empty());
    }
}

/// Taking out a section that is not enabled changes nothing.
pub proof fn removing_a_disabled_section(sections: Seq<PromptSection>, i: int)
    requires
        0 <= i < sections.len() <= usize::MAX,
        !sections[i].enabled,
    ensures
        said(sections.remove(i)) == said(sections),
{
    let keys = priorities(sections);
    let keys2 = priorities(sections.remove(i));
    assert(keys2 =~= keys.remove(i));
    ranking_exists(keys);
    ranking_exists(keys2);
    let r = order(sections);
    ranking_is_a_permutation(keys, r);
    assert(r.contains(i as usize));
    let p = choose|p: int| 0 <= p < r.len() && r[p] == i as usize;
    let r2 = Seq::new((r.len() - 1) as nat, |k: int| closed_up(
        r[if k < p {
            k
        } else {
            k + 1
        }],
        i,
    ));
    assert forall|k: int| 0 <= k < r.len() && k != p implies #[trigger] r[k] != i by {
        assert(r[k] != r[p]);
    }
    assert(is_ranking(keys2, r2)) by {
        assert forall|a: int| 0 <= a < r2.len() implies 0 <= #[trigger] r2[a] < keys2.len() by {
            let x = if a < p {
                a
            } else {
                a + 1
            };
            assert(0 <= r[x] < keys.len());
            assert(r[x] != i);
        }
        assert forall|a: int, b: int| 0 <= a < b < r2.len() implies precedes(
            keys2,
            #[trigger] r2[a] as int,
            #[trigger] r2[b] as int,
        ) by {
            let x = if a < p {
                a
            } else {
                a + 1
            };
            let y = if b < p {
                b
            } else {
                b + 1
            };
            assert(precedes(keys, r[x] as int, r[y] as int));
            assert(0 <= r[x] < keys.len() && 0 <= r[y] < keys.len());
            assert(r[x] != i && r[y] != i);
            assert(keys2[r2[a] as int] == keys[r[x] as int]);
            assert(keys2[r2[b] as int] == keys[r[y] as int]);
        }
    }
    rankings_agree(keys2, r2, order(sections.remove(i)));
    assert forall|k: int| 0 <= k < r.len() implies 0 <= #[trigger] r[k] < sections.len() by {}
    texts_without(sections, r, r2, p, i, r2.len() as int);
    if p == r2.len() {
        assert(enabled_texts(sections, r, p + 1) == enabled_texts(sections, r, p));
    }
}

proof fn filter_of_enabled(sections: Seq<PromptSection>)
    requires
        forall|i: int| 0 <= i < sections.len() ==> (#[trigger] sections[i]).enabled,
    ensures
        enabled_only(sections) == sections,
    decreases sections.len(),
{
    reveal(Seq::filter);
    if sections.len() > 0 {
        let rest = sections.drop_last();
        assert forall|i: int| 0 <= i < rest.len() implies (#[trigger] rest[i]).enabled by {
            assert(rest[i] == sections[i]);
        }
        filter_of_enabled(rest);
        assert(sections[sections.len() - 1].enabled);
        assert(enabled_only(sections) =~= sections);
    } else {
        assert(enabled_only(sections) =~= sections);
    }
}

/// Only the enabled sections matter: taking out all others changes nothing.
pub proof fn only_enabled_sections_are_said(sections: Seq<PromptSection>)
    requires
        sections.len() <= usize::MAX,
    ensures
        said(sections) == said(enabled_only(sections)),
        enabled_only(sections).len() <= sections.len(),
        forall|k: int|
            0 <= k < enabled_only(sections).len() ==> (#[trigger] enabled_only(
                sections,
            )[k]).enabled,
    decreases sections.len(),
{
    let f = |s: PromptSection| s.enabled;
    if exists|i: int| 0 <= i < sections.len() && !(#[trigger] sections[i]).enabled {
        let i = choose|i: int| 0 <= i < sections.len() && !(#[trigger] sections[i]).enabled;
        removing_a_disabled_section(sections, i);
        let rest = sections.remove(i);
        only_enabled_sections_are_said(rest);
        let head = sections.take(i);
        let one = seq![sections[i]];
        let tail = sections.skip(i + 1);
        assert(sections =~= head + one + tail);
        assert(rest =~= head + tail);
        Seq::filter_distributes_over_add(head + one, tail, f);
        Seq::filter_distributes_over_add(head, one, f);
        Seq::filter_distributes_over_add(head, tail, f);
        assert(one.filter(f) =~= Seq::<PromptSection>::empty()) by {
            reveal(Seq::filter);
            assert(one.drop_last() =~= Seq::<PromptSection>::empty());
            assert(one.drop_last().filter(f) =~= Seq::<PromptSection>::empty());
        }
        assert(sections.filter(f) =~= rest.filter(f));
    } else {
        filter_of_enabled(sections);
    }
}

/// A section's text by what it holds.
spec fn text_of(s: SectionView) -> Seq<char> {
    if s.tag.len() == 0 {
        crate::text::trim(s.content)
    } else {
        "<"@ + s.tag + ">\n\n"@ + crate::text::trim(s.content) + "\n\n</"@ + s.tag + ">"@
    }
}

/// What enabled sections hold, in the order of the prompt.
spec fn in_order(sections: Seq<PromptSection>) -> Seq<SectionView> {
    order(sections).map_values(|i: usize| sections[i as int]@)
}

proof fn texts_are_in_order(sections: Seq<PromptSection>, n: int)
    requires
        sections.len() <= usize::MAX,
        forall|i: int| 0 <= i < sections.len() ==> (#[trigger] sections[i]).enabled,
        0 <= n <= sections.len(),
    ensures
        in_order(sections).len() == sections.len(),
        enabled_texts(sections, order(sections), n) == in_order(sections).take(n).map_values(
            |s: SectionView| text_of(s),
        ),
    decreases n,
{
    ranking_exists(priorities(sections));
    let r = order(sections);
    let texts = in_order(sections).take(n).map_values(|s: SectionView| text_of(s));
    if n > 0 {
        texts_are_in_order(sections, n - 1);
        assert(0 <= r[n - 1] < sections.len());
        let s = sections[r[n - 1] as int];
        assert(s.enabled);
        assert(in_order(sections)[n - 1] == s@);
        assert(s.text() == text_of(s@));
        assert(texts =~= in_order(sections).take(n - 1).map_values(
            |s: SectionView| text_of(s),
        ).push(s.text()));
    } else {
        assert(texts =~= Seq::<Seq<char>>::empty());
    }
}

/// The prompt depends on the enabled sections alone: two prompts whose enabled
/// sections hold the same, in the same order, and whose budgets are the same are the
/// same text, whatever their other sections are.
pub proof fn disabled_sections_say_nothing(a: SystemPrompt, b: SystemPrompt)
    requires
        a.meta.token_budget == b.meta.token_budget,
        shown(a) == shown(b),
    ensures
        a.compiled() == b.compiled(),
{
    assert(a.sections.len() == a.sections@.len() && b.sections.len() == b.sections@.len());
    only_enabled_sections_are_said(a.sections@);
    only_enabled_sections_are_said(b.sections@);
    let x = enabled_only(a.sections@);
    let y = enabled_only(b.sections@);
    assert(shown(a).len() == x.len() && shown(b).len() == y.len());
    assert forall|k: int| 0 <= k < x.len() implies #[trigger] x[k]@ == y[k]@ by {
        assert(shown(a)[k] == x[k]@ && shown(b)[k] == y[k]@);
    }
    assert(priorities(x) =~= priorities(y)) by {
        assert forall|k: int| 0 <= k < x.len() implies priorities(x)[k] == priorities(y)[k] by {
            assert(x[k]@ == y[k]@);
        }
    }
    ranking_exists(priorities(x));
    texts_are_in_order(x, x.len() as int);
    texts_are_in_order(y, y.len() as int);
    assert(in_order(x) =~= in_order(y)) by {
        assert forall|k: int| 0 <= k < x.len() implies in_order(x)[k] == in_order(y)[k] by {
            let i = order(x)[k] as int;
            assert(0 <= order(x)[k] < x.len());
            assert(x[i]@ == y[i]@);
        }
    }
}

/// What is sorted is what there is, and higher priorities come first.
proof fn sorting_descends(sections: Seq<PromptSection>)
    requires
        sections.len() <= usize::MAX,
    ensures
        in_order(sections).len() == sections.len(),
        forall|k: int|
            0 <= k < sections.len() ==> held_by(sections).contains(#[trigger] in_order(sections)[k]),
        forall|k: int|
            0 <= k < sections.len() ==> in_order(sections).contains(#[trigger] held_by(sections)[k]),
        forall|i: int, j: int|
            0 <= i < j < sections.len() ==> (#[trigger] in_order(sections)[i]).priority >= (
            #[trigger] in_order(sections)[j]).priority,
        priorities_differ(held_by(sections)) ==> forall|i: int, j: int|
            0 <= i < j < sections.len() ==> (#[trigger] in_order(sections)[i]).priority > (
            #[trigger] in_order(sections)[j]).priority,
{
    let keys = priorities(sections);
    ranking_exists(keys);
    let r = order(sections);
    ranking_is_a_permutation(keys, r);
    let s = in_order(sections);
    let h = held_by(sections);
    assert forall|k: int| 0 <= k < sections.len() implies h.contains(#[trigger] s[k]) by {
        assert(0 <= r[k] < keys.len());
        assert(h[r[k] as int] == s[k]);
    }
    assert forall|k: int| 0 <= k < sections.len() implies s.contains(#[trigger] h[k]) by {
        assert(r.contains(k as usize));
        let p = choose|p: int| 0 <= p < r.len() && r[p] == k as usize;
        assert(s[p] == h[k]);
    }
    assert forall|i: int, j: int| 0 <= i < j < sections.len() implies (#[trigger] s[i]).priority >= (
    #[trigger] s[j]).priority && (priorities_differ(h) ==> s[i].priority > s[j].priority) by {
        assert(precedes(keys, r[i] as int, r[j] as int));
        assert(0 <= r[i] < keys.len() && 0 <= r[j] < keys.len());
        assert(keys[r[i] as int] == s[i].priority as i128);
        assert(keys[r[j] as int] == s[j].priority as i128);
        assert(h[r[i] as int] == s[i] && h[r[j] as int] == s[j]);
        if priorities_differ(h) {
            assert(r[i] != r[j]);
            if r[i] < r[j] {
                assert(h[r[i] as int].priority != h[r[j] as int].priority);
            } else {
                assert(h[r[j] as int].priority != h[r[i] as int].priority);
            }
        }
    }
}

proof fn descending_agree(x: Seq<SectionView>, y: Seq<SectionView>, n: int)
    requires
        x.len() == y.len(),
        0 <= n <= x.len(),
        forall|i: int, j: int|
            0 <= i < j < x.len() ==> (#[trigger] x[i]).priority > (#[trigger] x[j]).priority,
        forall|i: int, j: int|
            0 <= i < j < y.len() ==> (#[trigger] y[i]).priority > (#[trigger] y[j]).priority,
        forall|i: int| 0 <= i < x.len() ==> y.contains(#[trigger] x[i]),
        forall|i: int| 0 <= i < y.len() ==> x.contains(#[trigger] y[i]),
    ensures
        forall|i: int| 0 <= i < n ==> x[i] == y[i],
    decreases n,
{
    if n > 0 {
        descending_agree(x, y, n - 1);
        let k = n - 1;
        assert(y.contains(x[k]) && x.contains(y[k]));
        let j = choose|j: int| 0 <= j < y.len() && y[j] == x[k];
        let m = choose|m: int| 0 <= m < x.len() && x[m] == y[k];
        if j < k {
            assert(x[j] == y[j]);
            assert(x[j].priority > x[k].priority);
        } else if j > k {
            assert(y[k].priority > y[j].priority);
            if m < k {
                assert(x[m] == y[m]);
                assert(y[m].priority > y[k].priority);
            } else if m > k {
                assert(x[k].priority > x[m].priority);
            }
        }
    }
}

/// Where the enabled sections have different priorities, it does not matter in which
/// order they were put in: two prompts with the same enabled sections and the same
/// budget are the same text.
pub proof fn distinct_priorities_fix_the_order(a: SystemPrompt, b: SystemPrompt)
    requires
        a.meta.token_budget == b.meta.token_budget,
        shown(a).to_multiset() == shown(b).to_multiset(),
        priorities_differ(shown(a)),
    ensures
        a.compiled() == b.compiled(),
{
    assert(a.sections.len() == a.sections@.len() && b.sections.len() == b.sections@.len());
    only_enabled_sections_are_said(a.sections@);
    only_enabled_sections_are_said(b.sections@);
    let x = enabled_only(a.sections@);
    let y = enabled_only(b.sections@);
    let u = shown(a);
    let v = shown(b);
    u.to_multiset_ensures();
    v.to_multiset_ensures();
    assert(u.len() == x.len() && v.len() == y.len());
    assert forall|i: int| 0 <= i < u.len() implies v.contains(#[trigger] u[i]) by {
        assert(u.contains(u[i]));
        assert(u.to_multiset().count(u[i]) > 0);
    }
    assert forall|i: int| 0 <= i < v.len() implies u.contains(#[trigger] v[i]) by {
        assert(v.contains(v[i]));
        assert(v.to_multiset().count(v[i]) > 0);
    }
    assert(u.no_duplicates()) by {
        assert forall|i: int, j: int| 0 <= i < j < u.len() implies u[i] != u[j] by {
            assert(u[i].priority != u[j].priority);
        }
    }
    u.lemma_multiset_has_no_duplicates();
    v.lemma_multiset_has_no_duplicates_conv();
    assert(priorities_differ(v)) by {
        assert forall|i: int, j: int| 0 <= i < j < v.len() implies (#[trigger] v[i]).priority != (
        #[trigger] v[j]).priority by {
            let p = choose|p: int| 0 <= p < u.len() && u[p] == v[i];
            let q = choose|q: int| 0 <= q < u.len() && u[q] == v[j];
            assert(u.contains(v[i]) && u.contains(v[j]));
            assert(v[i] != v[j]);
            if p < q {
                assert(u[p].priority != u[q].priority);
            } else {
                assert(u[q].priority != u[p].priority);
            }
        }
    }
    sorting_descends(x);
    sorting_descends(y);
    let s = in_order(x);
    let t = in_order(y);
    assert forall|i: int| 0 <= i < s.len() implies t.contains(#[trigger] s[i]) by {
        assert(u.contains(s[i]));
        let p = choose|p: int| 0 <= p < u.len() && u[p] == s[i];
        assert(v.contains(u[p]));
        let q = choose|q: int| 0 <= q < v.len() && v[q] == u[p];
        assert(t.contains(held_by(y)[q]));
    }
    assert forall|i: int| 0 <= i < t.len() implies s.contains(#[trigger] t[i]) by {
        assert(v.contains(t[i]));
        let p = choose|p: int| 0 <= p < v.len() && v[p] == t[i];
        assert(u.contains(v[p]));
        let q = choose|q: int| 0 <= q < u.len() && u[q] == v[p];
        assert(s.contains(held_by(x)[q]));
    }
    descending_agree(s, t, s.len() as int);
    assert(s =~= t);
    texts_are_in_order(x, x.len() as int);
    texts_are_in_order(y, y.len() as int);
}

} // verus!
