//! What segmentation does, said of texts, the matches in them and the results alone.
//!
//! The rules are stated step by step where they are defined. The laws here say what the steps come
//! to: which boundaries a paragraph has, which sentences lie between them, when a text can be cut,
//! and what is handed out and kept of a text that arrives in parts.

use vstd::prelude::*;

use crate::constants::{EMAIL, PARENS};
use crate::graphemes::{clusters, grapheme_starts, next_after};
use crate::pattern::{fancy_spans, pattern_spans, Span};
use crate::rules::{
    admitted, decided, first_around, in_order, kept, or_next, placed, slice_end, slices,
    LanguageModel,
};
use crate::text::{at_boundary, byte_len, byte_slice, trim, trim_end, trim_start};

verus! {

/// Whether the offset with index `i` is the first of `offsets` that is greater than `pos`.
pub open spec fn first_after(offsets: Seq<usize>, pos: int, i: int) -> bool {
    &&& 0 <= i < offsets.len()
    &&& offsets[i] > pos
    &&& forall|j: int| 0 <= j < i ==> offsets[j] <= pos
}

/// Whether none of `offsets` is greater than `pos`.
pub open spec fn none_after(offsets: Seq<usize>, pos: int) -> bool {
    forall|j: int| 0 <= j < offsets.len() ==> offsets[j] <= pos
}

/// Whether `b` is the first of `offsets` after `pos`, or `pos` itself where there is none.
pub open spec fn reaches(offsets: Seq<usize>, pos: int, b: int) -> bool {
    ||| exists|i: int| #[trigger] first_after(offsets, pos, i) && b == offsets[i]
    ||| none_after(offsets, pos) && b == pos
}

/// A search forward finds the first offset after a position, and nothing only where there is none.
pub proof fn law_next_is_first_after(offsets: Seq<usize>, pos: int)
    ensures
        forall|i: int| #[trigger]
            first_after(offsets, pos, i) ==> next_after(offsets, pos) == Some(offsets[i]),
        none_after(offsets, pos) <==> next_after(offsets, pos) is None,
        next_after(offsets, pos) matches Some(n) ==> exists|i: int| #[trigger]
            first_after(offsets, pos, i) && offsets[i] == n,
    decreases offsets.len(),
{
    if offsets.len() > 0 {
        let rest = offsets.drop_first();
        law_next_is_first_after(rest, pos);
        if offsets[0] > pos {
            assert(first_after(offsets, pos, 0));
            assert forall|i: int| #[trigger] first_after(offsets, pos, i) implies i == 0 by {
                if i > 0 {
                    assert(offsets[0] <= pos);
                }
            }
        } else {
            assert forall|i: int| #[trigger] first_after(offsets, pos, i) implies next_after(
                offsets,
                pos,
            ) == Some(offsets[i]) by {
                assert forall|j: int| 0 <= j < i - 1 implies rest[j] <= pos by {
                    assert(rest[j] == offsets[j + 1]);
                }
                assert(first_after(rest, pos, i - 1));
            }
            if next_after(rest, pos) is Some {
                let i = choose|i: int| #[trigger]
                    first_after(rest, pos, i) && rest[i] == next_after(rest, pos)->0;
                assert forall|j: int| 0 <= j < i + 1 implies offsets[j] <= pos by {
                    if j > 0 {
                        assert(offsets[j] == rest[j - 1]);
                    }
                }
                assert(first_after(offsets, pos, i + 1));
            } else {
                assert forall|j: int| 0 <= j < offsets.len() implies offsets[j] <= pos by {
                    if j > 0 {
                        assert(offsets[j] == rest[j - 1]);
                    }
                }
            }
        }
        if none_after(offsets, pos) {
            assert forall|j: int| 0 <= j < rest.len() implies rest[j] <= pos by {
                assert(rest[j] == offsets[j + 1]);
            }
        }
    }
}

proof fn lemma_reaches(offsets: Seq<usize>, pos: int)
    ensures
        forall|b: int| #[trigger] reaches(offsets, pos, b) <==> b == or_next(offsets, pos),
{
    law_next_is_first_after(offsets, pos);
}

/// A cluster runs from where it starts to where the next one does, the last one to the end of the
/// text; there are clusters at the offsets and nowhere else.
pub proof fn law_clusters_run_to_the_next(text: Seq<char>, offsets: Seq<usize>, p: usize)
    ensures
        clusters(text, offsets).contains_key(p) <==> exists|i: int|
            0 <= i < offsets.len() && #[trigger] offsets[i] == p,
        forall|i: int| #[trigger]
            first_after(offsets, p as int, i) && clusters(text, offsets).contains_key(p)
                ==> clusters(text, offsets)[p] == byte_slice(text, p as int, offsets[i] as int),
        none_after(offsets, p as int) && clusters(text, offsets).contains_key(p) ==> clusters(
            text,
            offsets,
        )[p] == byte_slice(text, p as int, byte_len(text) as int),
{
    law_next_is_first_after(offsets, p as int);
}

/// The matches of quotations, of email addresses and of brackets, in this order.
pub open spec fn wholes(model: LanguageModel, text: Seq<char>) -> Seq<Span> {
    pattern_spans(model.quote_pairs, text) + pattern_spans(EMAIL@, text) + fancy_spans(
        PARENS@,
        text,
    )->0
}

/// The ranges that are not to be broken up are all matches of quotations, email addresses and
/// brackets, and they are known unless the search for brackets is given up.
pub proof fn law_all_matches_stay_whole(model: LanguageModel, text: Seq<char>)
    ensures
        model.skippable(text) is Some <==> fancy_spans(PARENS@, text) is Some,
        model.skippable(text) is Some ==> model.skippable(text)->0 == wholes(model, text),
{
}

/// Whether the range with index `k` is the first that holds `e` strictly inside.
pub open spec fn first_holding(ranges: Seq<Span>, e: int, k: int) -> bool {
    &&& 0 <= k < ranges.len()
    &&& ranges[k].0 < e < ranges[k].1
    &&& forall|j: int| 0 <= j < k ==> !(ranges[j].0 < e < (#[trigger] ranges[j]).1)
}

/// Whether none of `ranges` holds `e` strictly inside.
pub open spec fn none_holding(ranges: Seq<Span>, e: int) -> bool {
    forall|j: int| 0 <= j < ranges.len() ==> !(ranges[j].0 < e < (#[trigger] ranges[j]).1)
}

proof fn lemma_first_holding(ranges: Seq<Span>, e: int)
    ensures
        none_holding(ranges, e) <==> first_around(ranges, e) is None,
        forall|k: int| #[trigger]
            first_holding(ranges, e, k) ==> first_around(ranges, e) == Some(ranges[k]),
        first_around(ranges, e) matches Some(q) ==> exists|k: int| #[trigger]
            first_holding(ranges, e, k) && ranges[k] == q,
    decreases ranges.len(),
{
    if ranges.len() > 0 {
        let rest = ranges.drop_first();
        lemma_first_holding(rest, e);
        if ranges[0].0 < e < ranges[0].1 {
            assert(first_holding(ranges, e, 0));
            assert forall|k: int| #[trigger] first_holding(ranges, e, k) implies k == 0 by {
                if k > 0 {
                    assert(!(ranges[0].0 < e < ranges[0].1));
                }
            }
        } else {
            assert forall|k: int| #[trigger] first_holding(ranges, e, k) implies first_around(
                ranges,
                e,
            ) == Some(ranges[k]) by {
                assert forall|j: int| 0 <= j < k - 1 implies !(rest[j].0 < e < (#[trigger] rest[j]).1)
                    by {
                    assert(rest[j] == ranges[j + 1]);
                }
                assert(first_holding(rest, e, k - 1));
            }
            if first_around(rest, e) is Some {
                let k = choose|k: int| #[trigger]
                    first_holding(rest, e, k) && rest[k] == first_around(rest, e)->0;
                assert forall|j: int| 0 <= j < k + 1 implies !(ranges[j].0 < e < (
                #[trigger] ranges[j]).1) by {
                    if j > 0 {
                        assert(ranges[j] == rest[j - 1]);
                    }
                }
                assert(first_holding(ranges, e, k + 1));
            } else {
                assert forall|j: int| 0 <= j < ranges.len() implies !(ranges[j].0 < e < (
                #[trigger] ranges[j]).1) by {
                    if j > 0 {
                        assert(ranges[j] == rest[j - 1]);
                    }
                }
            }
        }
        if none_holding(ranges, e) {
            assert forall|j: int| 0 <= j < rest.len() implies !(rest[j].0 < e < (
            #[trigger] rest[j]).1) by {
                assert(rest[j] == ranges[j + 1]);
            }
        }
    }
}

/// Whether a sentence that would end at `e` ends at `b`: at `e` itself outside all ranges; inside
/// one, and only where sentences may end after a closing quotation mark, at the end of the first
/// such range if that is where the next cluster starts.
pub open spec fn is_put(
    ranges: Seq<Span>,
    offsets: Seq<usize>,
    punctuation_between_quotes: bool,
    e: int,
    b: int,
) -> bool {
    ||| none_holding(ranges, e) && b == e
    ||| punctuation_between_quotes && exists|k: int| #[trigger]
        first_holding(ranges, e, k) && b == ranges[k].1 && reaches(offsets, e, b)
}

/// Where a boundary is put, for all ranges and offsets.
pub proof fn law_placing(
    ranges: Seq<Span>,
    offsets: Seq<usize>,
    punctuation_between_quotes: bool,
    e: int,
)
    ensures
        forall|b: int| #[trigger]
            is_put(ranges, offsets, punctuation_between_quotes, e, b) <==> placed(
                ranges,
                offsets,
                punctuation_between_quotes,
                e,
            ) == Some(b),
{
    lemma_first_holding(ranges, e);
    lemma_reaches(offsets, e);
    assert forall|b: int| #[trigger]
        is_put(ranges, offsets, punctuation_between_quotes, e, b) <==> placed(
            ranges,
            offsets,
            punctuation_between_quotes,
            e,
        ) == Some(b) by {
        if first_around(ranges, e) is Some {
            let q = first_around(ranges, e)->0;
            let k = choose|k: int| #[trigger] first_holding(ranges, e, k) && ranges[k] == q;
            assert(first_holding(ranges, e, k));
            assert(reaches(offsets, e, q.1 as int) <==> or_next(offsets, e) == q.1);
        }
    }
}

/// A boundary behind a reference is admitted as it is, any other where it is put, and nothing comes
/// of nothing.
pub proof fn law_admitting(
    ranges: Seq<Span>,
    offsets: Seq<usize>,
    punctuation_between_quotes: bool,
    e: int,
)
    ensures
        admitted(ranges, offsets, punctuation_between_quotes, None) is None,
        admitted(ranges, offsets, punctuation_between_quotes, Some((e, true))) == Some(e),
        forall|b: int| #[trigger]
            is_put(ranges, offsets, punctuation_between_quotes, e, b) <==> admitted(
                ranges,
                offsets,
                punctuation_between_quotes,
                Some((e, false)),
            ) == Some(b),
{
    law_placing(ranges, offsets, punctuation_between_quotes, e);
}

/// A terminator ends a sentence behind the reference that follows it; without one at its own end,
/// unless it is suppressed.
pub proof fn law_deciding(offsets: Seq<usize>, m: Span, reference: Span)
    ensures
        forall|s: bool|
            (#[trigger] decided(offsets, m, Some(reference), s)) matches Some((b, behind)) && behind
                && reaches(offsets, m.1 + reference.1, b),
        decided(offsets, m, None, false) == Some((m.1 as int, false)),
        decided(offsets, m, None, true) is None,
{
    lemma_reaches(offsets, m.1 + reference.1);
    assert forall|s: bool|
        (#[trigger] decided(offsets, m, Some(reference), s)) matches Some((b, behind)) && behind
            && reaches(offsets, m.1 + reference.1, b) by {
        assert(reaches(offsets, m.1 + reference.1, or_next(offsets, m.1 + reference.1)));
    }
}

/// What is found for a terminator whose next cluster starts at the offset with index `c`: the first
/// reference at the start of what follows puts the boundary behind it, wherever it ends; without
/// one, the boundary is the end of the terminator unless the sentence goes on, or an abbreviation
/// or a word with an exclamation mark stands before the terminator.
pub proof fn law_boundary_of_a_terminator(
    model: LanguageModel,
    text: Seq<char>,
    table: Map<usize, Seq<char>>,
    offsets: Seq<usize>,
    m: Span,
    c: int,
)
    requires
        first_after(offsets, m.0 as int, c),
    ensures
        ({
            let head = byte_slice(text, 0, m.0 as int);
            let tail = byte_slice(text, offsets[c] as int, byte_len(text) as int);
            let references = pattern_spans(model.numbered_reference, tail);
            let found = model.boundary(text, table, offsets, m);
            if references.len() > 0 {
                found matches Some((b, behind)) && behind && reaches(
                    offsets,
                    m.1 + references[0].1,
                    b,
                )
            } else if (model.continuation)(tail) || (model.abbreviation)(head, tail, table[m.0]) || (
            model.exclamation)(head, tail) {
                found is None
            } else {
                found == Some((m.1 as int, false))
            }
        }),
{
    let tail = byte_slice(text, offsets[c] as int, byte_len(text) as int);
    let references = pattern_spans(model.numbered_reference, tail);
    law_next_is_first_after(offsets, m.0 as int);
    if references.len() > 0 {
        lemma_reaches(offsets, m.1 + references[0].1);
        assert(reaches(
            offsets,
            m.1 + references[0].1,
            or_next(offsets, m.1 + references[0].1),
        ));
    }
}

/// A terminator with no cluster after its start makes no boundary.
pub proof fn law_last_cluster_makes_no_boundary(
    model: LanguageModel,
    text: Seq<char>,
    table: Map<usize, Seq<char>>,
    offsets: Seq<usize>,
    m: Span,
)
    requires
        none_after(offsets, m.0 as int),
    ensures
        model.boundary(text, table, offsets, m) is None,
{
    law_next_is_first_after(offsets, m.0 as int);
}

/// The terminators of a paragraph.
pub open spec fn terminators(model: LanguageModel, paragraph: Seq<char>) -> Seq<Span> {
    pattern_spans(model.sentence_break, paragraph)
}

/// Whether the terminator `m` of a paragraph ends a sentence at `b`.
pub open spec fn ends_at(model: LanguageModel, paragraph: Seq<char>, m: Span, b: int) -> bool {
    let offsets = grapheme_starts(paragraph);
    exists|c: int| #[trigger]
        first_after(offsets, m.0 as int, c) && {
            let head = byte_slice(paragraph, 0, m.0 as int);
            let cluster = byte_slice(paragraph, m.0 as int, offsets[c] as int);
            let tail = byte_slice(paragraph, offsets[c] as int, byte_len(paragraph) as int);
            let references = pattern_spans(model.numbered_reference, tail);
            if references.len() > 0 {
                reaches(offsets, m.1 + references[0].1, b)
            } else {
                &&& !(model.continuation)(tail)
                &&& !(model.abbreviation)(head, tail, cluster)
                &&& !(model.exclamation)(head, tail)
                &&& is_put(
                    wholes(model, paragraph),
                    offsets,
                    model.punctuation_between_quotes,
                    m.1 as int,
                    b,
                )
            }
        }
}

/// Whether it can be told where the terminator `m` ends a sentence: the end of a reference behind it
/// can be computed; or else the sentence goes on, or a cluster starts with the terminator.
pub open spec fn has_answer(model: LanguageModel, paragraph: Seq<char>, m: Span) -> bool {
    let offsets = grapheme_starts(paragraph);
    forall|c: int| #[trigger]
        first_after(offsets, m.0 as int, c) ==> {
            let tail = byte_slice(paragraph, offsets[c] as int, byte_len(paragraph) as int);
            let references = pattern_spans(model.numbered_reference, tail);
            if references.len() > 0 {
                m.1 + references[0].1 <= usize::MAX
            } else {
                (model.continuation)(tail) || offsets.contains(m.0)
            }
        }
}

/// What comes of one terminator.
spec fn outcome(model: LanguageModel, paragraph: Seq<char>, m: Span) -> Option<int> {
    let offsets = grapheme_starts(paragraph);
    admitted(
        model.skippable(paragraph)->0,
        offsets,
        model.punctuation_between_quotes,
        model.boundary(paragraph, clusters(paragraph, offsets), offsets, m),
    )
}

proof fn lemma_has_answer(model: LanguageModel, paragraph: Seq<char>, m: Span)
    ensures
        has_answer(model, paragraph, m) <==> model.boundary_defined(
            paragraph,
            clusters(paragraph, grapheme_starts(paragraph)),
            grapheme_starts(paragraph),
            m,
        ),
{
    let offsets = grapheme_starts(paragraph);
    law_next_is_first_after(offsets, m.0 as int);
}

proof fn lemma_outcome(model: LanguageModel, paragraph: Seq<char>, m: Span, b: int)
    requires
        has_answer(model, paragraph, m),
        fancy_spans(PARENS@, paragraph) is Some,
    ensures
        ends_at(model, paragraph, m, b) <==> outcome(model, paragraph, m) == Some(b),
{
    let offsets = grapheme_starts(paragraph);
    let table = clusters(paragraph, offsets);
    let ranges = wholes(model, paragraph);
    let punctuation = model.punctuation_between_quotes;
    law_next_is_first_after(offsets, m.0 as int);
    law_all_matches_stay_whole(model, paragraph);
    match next_after(offsets, m.0 as int) {
        None => {},
        Some(next) => {
            let c = choose|c: int| #[trigger]
                first_after(offsets, m.0 as int, c) && offsets[c] == next;
            assert forall|d: int| #[trigger] first_after(offsets, m.0 as int, d) implies d == c by {
                if d < c {
                    assert(offsets[d] <= m.0);
                } else if c < d {
                    assert(offsets[c] <= m.0);
                }
            }
            law_boundary_of_a_terminator(model, paragraph, table, offsets, m, c);
            law_clusters_run_to_the_next(paragraph, offsets, m.0);
            let tail = byte_slice(paragraph, offsets[c] as int, byte_len(paragraph) as int);
            let references = pattern_spans(model.numbered_reference, tail);
            if references.len() > 0 {
                lemma_reaches(offsets, m.1 + references[0].1);
                assert(reaches(offsets, m.1 + references[0].1, b) <==> b == or_next(
                    offsets,
                    m.1 + references[0].1,
                ));
            } else {
                law_admitting(ranges, offsets, punctuation, m.1 as int);
                assert(is_put(ranges, offsets, punctuation, m.1 as int, b) <==> admitted(
                    ranges,
                    offsets,
                    punctuation,
                    Some((m.1 as int, false)),
                ) == Some(b));
            }
        },
    }
}

spec fn made_by(model: LanguageModel, paragraph: Seq<char>, ms: Seq<Span>) -> Seq<int> {
    let offsets = grapheme_starts(paragraph);
    model.made(
        paragraph,
        clusters(paragraph, offsets),
        offsets,
        model.skippable(paragraph)->0,
        ms,
    )
}

/// The outcomes are the boundaries, and they are in order exactly when the boundaries are.
proof fn lemma_outcomes(model: LanguageModel, paragraph: Seq<char>, ms: Seq<Span>)
    ensures
        forall|b: int| #[trigger]
            made_by(model, paragraph, ms).contains(b) <==> exists|i: int|
                0 <= i < ms.len() && outcome(model, paragraph, #[trigger] ms[i]) == Some(b),
        (forall|j: int, k: int|
            0 <= j < k < made_by(model, paragraph, ms).len() ==> made_by(model, paragraph, ms)[j]
                <= made_by(model, paragraph, ms)[k]) <==> (forall|i: int, j: int, b: int, c: int|
            #![trigger ends_with(model, paragraph, ms, i, b), ends_with(model, paragraph, ms, j, c)]
            i < j && ends_with(model, paragraph, ms, i, b) && ends_with(model, paragraph, ms, j, c)
                ==> b <= c),
    decreases ms.len(),
{
    let made = made_by(model, paragraph, ms);
    if ms.len() > 0 {
        let earlier = ms.drop_last();
        let before = made_by(model, paragraph, earlier);
        let n = ms.len() - 1;
        lemma_outcomes(model, paragraph, earlier);
        assert forall|i: int| 0 <= i < n implies earlier[i] == ms[i] by {}
        assert forall|i: int, b: int| 0 <= i < n implies (#[trigger] ends_with(
            model,
            paragraph,
            earlier,
            i,
            b,
        ) <==> ends_with(model, paragraph, ms, i, b)) by {}
        assert forall|b: int| #[trigger] made.contains(b) <==> exists|i: int|
            0 <= i < ms.len() && outcome(model, paragraph, #[trigger] ms[i]) == Some(b) by {
            if made.contains(b) {
                let k = made.index_of(b);
                if k < before.len() {
                    assert(before[k] == b);
                    assert(before.contains(b));
                    let i = choose|i: int|
                        0 <= i < earlier.len() && outcome(model, paragraph, #[trigger] earlier[i])
                            == Some(b);
                    assert(outcome(model, paragraph, ms[i]) == Some(b));
                } else {
                    assert(outcome(model, paragraph, ms[n]) == Some(b));
                }
            }
            if exists|i: int|
                0 <= i < ms.len() && outcome(model, paragraph, #[trigger] ms[i]) == Some(b) {
                let i = choose|i: int|
                    0 <= i < ms.len() && outcome(model, paragraph, #[trigger] ms[i]) == Some(b);
                if i < n {
                    assert(outcome(model, paragraph, earlier[i]) == Some(b));
                    assert(before.contains(b));
                    let k = before.index_of(b);
                    assert(made[k] == b);
                } else {
                    assert(made[before.len() as int] == b);
                }
            }
        }
        let sorted = forall|j: int, k: int| 0 <= j < k < made.len() ==> made[j] <= made[k];
        let paired = forall|i: int, j: int, b: int, c: int|
            #![trigger ends_with(model, paragraph, ms, i, b), ends_with(model, paragraph, ms, j, c)]
            i < j && ends_with(model, paragraph, ms, i, b) && ends_with(model, paragraph, ms, j, c)
                ==> b <= c;
        if sorted {
            assert(forall|j: int, k: int| 0 <= j < k < before.len() ==> before[j] <= before[k]) by {
                assert forall|j: int, k: int| 0 <= j < k < before.len() implies before[j]
                    <= before[k] by {
                    assert(before[j] == made[j] && before[k] == made[k]);
                }
            }
            assert forall|i: int, j: int, b: int, c: int|
                #![trigger ends_with(model, paragraph, ms, i, b), ends_with(model, paragraph, ms, j, c)]
                i < j && ends_with(model, paragraph, ms, i, b) && ends_with(
                    model,
                    paragraph,
                    ms,
                    j,
                    c,
                ) implies b <= c by {
                assert(ends_with(model, paragraph, earlier, i, b));
                if j < n {
                    assert(ends_with(model, paragraph, earlier, j, c));
                } else {
                    assert(outcome(model, paragraph, earlier[i]) == Some(b));
                    assert(before.contains(b));
                    let k = before.index_of(b);
                    assert(made[k] == b);
                    assert(made[before.len() as int] == c);
                }
            }
        }
        if paired {
            assert forall|i: int, j: int, b: int, c: int|
                #![trigger ends_with(model, paragraph, earlier, i, b), ends_with(model, paragraph, earlier, j, c)]
                i < j && ends_with(model, paragraph, earlier, i, b) && ends_with(
                    model,
                    paragraph,
                    earlier,
                    j,
                    c,
                ) implies b <= c by {
                assert(ends_with(model, paragraph, ms, i, b));
                assert(ends_with(model, paragraph, ms, j, c));
            }
            assert forall|j: int, k: int| 0 <= j < k < made.len() implies made[j] <= made[k] by {
                if k < before.len() {
                    assert(before[j] == made[j] && before[k] == made[k]);
                } else {
                    assert(before[j] == made[j]);
                    assert(before.contains(made[j]));
                    let i = choose|i: int|
                        0 <= i < earlier.len() && outcome(model, paragraph, #[trigger] earlier[i])
                            == Some(made[j]);
                    assert(ends_with(model, paragraph, ms, i, made[j]));
                    assert(ends_with(model, paragraph, ms, n, made[k]));
                }
            }
        }
    } else {
        assert(made =~= Seq::<int>::empty());
    }
}

spec fn ends_with(
    model: LanguageModel,
    paragraph: Seq<char>,
    ms: Seq<Span>,
    i: int,
    b: int,
) -> bool {
    0 <= i < ms.len() && outcome(model, paragraph, ms[i]) == Some(b)
}

/// Whether the terminator with index `i` of a paragraph ends a sentence at `b`.
pub open spec fn terminator_ends_at(
    model: LanguageModel,
    paragraph: Seq<char>,
    i: int,
    b: int,
) -> bool {
    &&& 0 <= i < terminators(model, paragraph).len()
    &&& ends_at(model, paragraph, terminators(model, paragraph)[i], b)
}

/// A paragraph can be cut into sentences exactly when the search for brackets comes to an end, each
/// terminator has an answer, and the answers lie between characters and come in the order of the
/// terminators.
pub proof fn law_when_a_paragraph_can_be_cut(model: LanguageModel, paragraph: Seq<char>)
    ensures
        model.paragraph_defined(paragraph) <==> {
            &&& fancy_spans(PARENS@, paragraph) is Some
            &&& forall|i: int|
                0 <= i < terminators(model, paragraph).len() ==> has_answer(
                    model,
                    paragraph,
                    #[trigger] terminators(model, paragraph)[i],
                )
            &&& forall|i: int, b: int| #[trigger]
                terminator_ends_at(model, paragraph, i, b) ==> at_boundary(paragraph, b)
            &&& forall|i: int, j: int, b: int, c: int|
                #![trigger terminator_ends_at(model, paragraph, i, b), terminator_ends_at(model, paragraph, j, c)]
                i < j && terminator_ends_at(model, paragraph, i, b) && terminator_ends_at(
                    model,
                    paragraph,
                    j,
                    c,
                ) ==> b <= c
        },
{
    let ms = terminators(model, paragraph);
    let offsets = grapheme_starts(paragraph);
    let made = made_by(model, paragraph, ms);
    let boundaries = model.boundaries(paragraph);
    assert(boundaries =~= seq![0int] + made);
    law_all_matches_stay_whole(model, paragraph);
    assert forall|i: int| 0 <= i < ms.len() implies (has_answer(model, paragraph, #[trigger] ms[i])
        <==> model.boundary_defined(paragraph, clusters(paragraph, offsets), offsets, ms[i])) by {
        lemma_has_answer(model, paragraph, ms[i]);
    }
    if fancy_spans(PARENS@, paragraph) is Some && (forall|i: int|
        0 <= i < ms.len() ==> has_answer(model, paragraph, #[trigger] ms[i])) {
        lemma_terminators(model, paragraph);
        lemma_outcomes(model, paragraph, ms);
        crate::text::lemma_ends(paragraph);
        if model.paragraph_defined(paragraph) {
            assert forall|i: int, b: int| #[trigger]
                terminator_ends_at(model, paragraph, i, b) implies at_boundary(paragraph, b) by {
                assert(ends_with(model, paragraph, ms, i, b));
                assert(made.contains(b));
                assert(boundaries[made.index_of(b) + 1] == b);
            }
            assert forall|j: int, k: int| 0 <= j < k < made.len() implies made[j] <= made[k] by {
                assert(boundaries[j + 1] == made[j] && boundaries[k + 1] == made[k]);
            }
            assert forall|i: int, j: int, b: int, c: int|
                #![trigger terminator_ends_at(model, paragraph, i, b), terminator_ends_at(model, paragraph, j, c)]
                i < j && terminator_ends_at(model, paragraph, i, b) && terminator_ends_at(
                    model,
                    paragraph,
                    j,
                    c,
                ) implies b <= c by {
                assert(ends_with(model, paragraph, ms, i, b));
                assert(ends_with(model, paragraph, ms, j, c));
            }
        }
        if (forall|i: int, b: int| #[trigger]
            terminator_ends_at(model, paragraph, i, b) ==> at_boundary(paragraph, b)) && (forall|
            i: int,
            j: int,
            b: int,
            c: int,
        |
            #![trigger terminator_ends_at(model, paragraph, i, b), terminator_ends_at(model, paragraph, j, c)]
            i < j && terminator_ends_at(model, paragraph, i, b) && terminator_ends_at(
                model,
                paragraph,
                j,
                c,
            ) ==> b <= c) {
            assert forall|i: int, j: int, b: int, c: int|
                #![trigger ends_with(model, paragraph, ms, i, b), ends_with(model, paragraph, ms, j, c)]
                i < j && ends_with(model, paragraph, ms, i, b) && ends_with(
                    model,
                    paragraph,
                    ms,
                    j,
                    c,
                ) implies b <= c by {
                assert(terminator_ends_at(model, paragraph, i, b));
                assert(terminator_ends_at(model, paragraph, j, c));
            }
            assert forall|k: int| 0 <= k < boundaries.len() implies at_boundary(
                paragraph,
                #[trigger] boundaries[k],
            ) by {
                if k > 0 {
                    let b = made[k - 1];
                    assert(boundaries[k] == b);
                    assert(made.contains(b));
                    let i = choose|i: int|
                        0 <= i < ms.len() && outcome(model, paragraph, #[trigger] ms[i]) == Some(b);
                    assert(ends_with(model, paragraph, ms, i, b));
                    assert(terminator_ends_at(model, paragraph, i, b));
                }
            }
            assert forall|j: int, k: int| 0 <= j < k < boundaries.len() implies boundaries[j]
                <= boundaries[k] by {
                assert(boundaries[k] == made[k - 1]);
                if j > 0 {
                    assert(boundaries[j] == made[j - 1]);
                } else {
                    assert(at_boundary(paragraph, boundaries[k]));
                }
            }
            assert(in_order(paragraph, boundaries));
        }
    }
}

proof fn lemma_terminators(model: LanguageModel, paragraph: Seq<char>)
    requires
        fancy_spans(PARENS@, paragraph) is Some,
        forall|i: int|
            0 <= i < terminators(model, paragraph).len() ==> has_answer(
                model,
                paragraph,
                #[trigger] terminators(model, paragraph)[i],
            ),
    ensures
        forall|i: int, b: int|
            #![trigger terminator_ends_at(model, paragraph, i, b)]
            #![trigger ends_with(model, paragraph, terminators(model, paragraph), i, b)]
            terminator_ends_at(model, paragraph, i, b) <==> ends_with(
                model,
                paragraph,
                terminators(model, paragraph),
                i,
                b,
            ),
{
    let ms = terminators(model, paragraph);
    assert forall|i: int, b: int|
        #![trigger terminator_ends_at(model, paragraph, i, b)]
        #![trigger ends_with(model, paragraph, ms, i, b)]
        terminator_ends_at(model, paragraph, i, b) <==> ends_with(
            model,
            paragraph,
            ms,
            i,
            b,
        ) by {
        if 0 <= i < ms.len() {
            assert(has_answer(model, paragraph, ms[i]));
            lemma_outcome(model, paragraph, ms[i], b);
        }
    }
}

/// The boundaries of a paragraph are its start and the places where one of its terminators ends a
/// sentence: all of those, and no others.
pub proof fn law_boundaries_are_where_terminators_end_sentences(
    model: LanguageModel,
    paragraph: Seq<char>,
)
    requires
        model.paragraph_defined(paragraph),
    ensures
        forall|b: int| #[trigger]
            model.boundaries(paragraph).contains(b) <==> b == 0 || exists|i: int| #[trigger]
                terminator_ends_at(model, paragraph, i, b),
{
    let ms = terminators(model, paragraph);
    let made = made_by(model, paragraph, ms);
    let boundaries = model.boundaries(paragraph);
    law_when_a_paragraph_can_be_cut(model, paragraph);
    lemma_terminators(model, paragraph);
    lemma_outcomes(model, paragraph, ms);
    assert(boundaries =~= seq![0int] + made);
    assert forall|b: int| #[trigger] boundaries.contains(b) <==> b == 0 || exists|i: int| #[trigger]
        terminator_ends_at(model, paragraph, i, b) by {
        assert(boundaries[0] == 0);
        if boundaries.contains(b) && b != 0 {
            let k = boundaries.index_of(b);
            assert(made[k - 1] == b);
            assert(made.contains(b));
            let i = choose|i: int|
                0 <= i < ms.len() && outcome(model, paragraph, #[trigger] ms[i]) == Some(b);
            assert(ends_with(model, paragraph, ms, i, b));
            assert(terminator_ends_at(model, paragraph, i, b));
        }
        if exists|i: int| #[trigger] terminator_ends_at(model, paragraph, i, b) {
            let i = choose|i: int| #[trigger] terminator_ends_at(model, paragraph, i, b);
            assert(ends_with(model, paragraph, ms, i, b));
            assert(outcome(model, paragraph, ms[i]) == Some(b));
            assert(made.contains(b));
            assert(boundaries[made.index_of(b) + 1] == b);
        }
    }
}

/// Every terminator of a paragraph counts: one with a cluster after its start that no reference
/// follows, behind which the sentence does not go on, that ends neither an abbreviation nor a word
/// with an exclamation mark, and that ends inside no quotation, email address or brackets, ends a
/// sentence.
pub proof fn law_every_terminator_counts(
    model: LanguageModel,
    paragraph: Seq<char>,
    i: int,
    c: int,
)
    requires
        model.paragraph_defined(paragraph),
        0 <= i < terminators(model, paragraph).len(),
        first_after(grapheme_starts(paragraph), terminators(model, paragraph)[i].0 as int, c),
        ({
            let m = terminators(model, paragraph)[i];
            let next = grapheme_starts(paragraph)[c] as int;
            let head = byte_slice(paragraph, 0, m.0 as int);
            let cluster = byte_slice(paragraph, m.0 as int, next);
            let tail = byte_slice(paragraph, next, byte_len(paragraph) as int);
            &&& pattern_spans(model.numbered_reference, tail).len() == 0
            &&& !(model.continuation)(tail)
            &&& !(model.abbreviation)(head, tail, cluster)
            &&& !(model.exclamation)(head, tail)
            &&& none_holding(pattern_spans(model.quote_pairs, paragraph), m.1 as int)
            &&& none_holding(pattern_spans(EMAIL@, paragraph), m.1 as int)
            &&& none_holding(fancy_spans(PARENS@, paragraph)->0, m.1 as int)
        }),
    ensures
        model.boundaries(paragraph).contains(terminators(model, paragraph)[i].1 as int),
{
    let m = terminators(model, paragraph)[i];
    let ranges = wholes(model, paragraph);
    let quotes = pattern_spans(model.quote_pairs, paragraph);
    let mails = pattern_spans(EMAIL@, paragraph);
    let parens = fancy_spans(PARENS@, paragraph)->0;
    assert forall|j: int| 0 <= j < ranges.len() implies !(ranges[j].0 < m.1 < (
    #[trigger] ranges[j]).1) by {
        if j < quotes.len() {
            assert(ranges[j] == quotes[j]);
        } else if j < quotes.len() + mails.len() {
            assert(ranges[j] == mails[j - quotes.len()]);
        } else {
            assert(ranges[j] == parens[j - quotes.len() - mails.len()]);
        }
    }
    assert(none_holding(ranges, m.1 as int));
    assert(is_put(
        ranges,
        grapheme_starts(paragraph),
        model.punctuation_between_quotes,
        m.1 as int,
        m.1 as int,
    ));
    assert(ends_at(model, paragraph, m, m.1 as int));
    assert(terminator_ends_at(model, paragraph, i, m.1 as int));
    law_boundaries_are_where_terminators_end_sentences(model, paragraph);
}

/// Every terminator with a reference behind it ends a sentence, and the reference belongs to that
/// sentence: the boundary is where the next cluster behind the reference starts, or where the
/// reference ends if there is none.
pub proof fn law_every_reference_counts(
    model: LanguageModel,
    paragraph: Seq<char>,
    i: int,
    c: int,
    b: int,
)
    requires
        model.paragraph_defined(paragraph),
        0 <= i < terminators(model, paragraph).len(),
        first_after(grapheme_starts(paragraph), terminators(model, paragraph)[i].0 as int, c),
        ({
            let m = terminators(model, paragraph)[i];
            let tail = byte_slice(
                paragraph,
                grapheme_starts(paragraph)[c] as int,
                byte_len(paragraph) as int,
            );
            let references = pattern_spans(model.numbered_reference, tail);
            &&& references.len() > 0
            &&& reaches(grapheme_starts(paragraph), m.1 + references[0].1, b)
        }),
    ensures
        model.boundaries(paragraph).contains(b),
{
    let m = terminators(model, paragraph)[i];
    assert(ends_at(model, paragraph, m, b));
    assert(terminator_ends_at(model, paragraph, i, b));
    law_boundaries_are_where_terminators_end_sentences(model, paragraph);
}

/// Whether `b` is the boundary behind a reference that follows the terminator with index `i`.
pub open spec fn is_behind_reference(
    model: LanguageModel,
    paragraph: Seq<char>,
    i: int,
    b: int,
) -> bool {
    let offsets = grapheme_starts(paragraph);
    let m = terminators(model, paragraph)[i];
    &&& 0 <= i < terminators(model, paragraph).len()
    &&& exists|c: int| #[trigger]
        first_after(offsets, m.0 as int, c) && {
            let tail = byte_slice(paragraph, offsets[c] as int, byte_len(paragraph) as int);
            let references = pattern_spans(model.numbered_reference, tail);
            references.len() > 0 && reaches(offsets, m.1 + references[0].1, b)
        }
}

/// No sentence ends inside a quotation, an email address or brackets, unless the boundary stands
/// behind a reference, or sentences may end after a closing quotation mark.
pub proof fn law_wholes_are_kept_whole(
    model: LanguageModel,
    paragraph: Seq<char>,
    q: Span,
    b: int,
)
    requires
        model.paragraph_defined(paragraph),
        !model.punctuation_between_quotes,
        pattern_spans(model.quote_pairs, paragraph).contains(q) || pattern_spans(
            EMAIL@,
            paragraph,
        ).contains(q) || fancy_spans(PARENS@, paragraph)->0.contains(q),
        model.boundaries(paragraph).contains(b),
        q.0 < b < q.1,
    ensures
        exists|i: int| #[trigger] is_behind_reference(model, paragraph, i, b),
{
    let ranges = wholes(model, paragraph);
    let quotes = pattern_spans(model.quote_pairs, paragraph);
    let mails = pattern_spans(EMAIL@, paragraph);
    let parens = fancy_spans(PARENS@, paragraph)->0;
    law_boundaries_are_where_terminators_end_sentences(model, paragraph);
    let i = choose|i: int| #[trigger] terminator_ends_at(model, paragraph, i, b);
    let m = terminators(model, paragraph)[i];
    let offsets = grapheme_starts(paragraph);
    assert(ends_at(model, paragraph, m, b));
    let k = if quotes.contains(q) {
        quotes.index_of(q)
    } else if mails.contains(q) {
        quotes.len() + mails.index_of(q)
    } else {
        quotes.len() + mails.len() + parens.index_of(q)
    };
    assert(ranges[k] == q);
    assert(!none_holding(ranges, b));
    assert(is_behind_reference(model, paragraph, i, b));
}

/// Whether `t` is `s` without the spaces at its two ends, and nothing else.
pub open spec fn is_trimming(s: Seq<char>, t: Seq<char>) -> bool {
    exists|i: int, j: int|
        #![trigger s.subrange(i, j)]
        {
            &&& 0 <= i <= j <= s.len()
            &&& t == s.subrange(i, j)
            &&& forall|k: int| 0 <= k < i || j <= k < s.len() ==> s[k] == ' '
            &&& i < j ==> s[i] != ' ' && s[j - 1] != ' '
        }
}

/// Trimming takes away the spaces at the two ends, all of them, and keeps what stands between.
pub proof fn law_trimming(s: Seq<char>)
    ensures
        is_trimming(s, trim(s)),
{
    let i = lemma_trim_start_at(s);
    let rest = trim_start(s);
    let j = lemma_trim_end_at(rest);
    let t = trim(s);
    assert(t =~= s.subrange(i, i + j));
    assert forall|k: int| 0 <= k < i || i + j <= k < s.len() implies s[k] == ' ' by {
        if k >= i + j {
            assert(rest[k - i] == s[k]);
        }
    }
    if i < i + j {
        assert(rest[0] == s[i]);
        assert(rest[j - 1] == s[i + j - 1]);
    }
}

proof fn lemma_trim_start_at(s: Seq<char>) -> (i: int)
    ensures
        0 <= i <= s.len(),
        trim_start(s) == s.skip(i),
        forall|k: int| 0 <= k < i ==> s[k] == ' ',
        i < s.len() ==> s[i] != ' ',
    decreases s.len(),
{
    if s.len() > 0 && s[0] == ' ' {
        let rest = s.drop_first();
        let i = lemma_trim_start_at(rest);
        assert(rest.skip(i) =~= s.skip(i + 1));
        assert forall|k: int| 0 <= k < i + 1 implies s[k] == ' ' by {
            if k > 0 {
                assert(rest[k - 1] == s[k]);
            }
        }
        i + 1
    } else {
        assert(s.skip(0) =~= s);
        0
    }
}

proof fn lemma_trim_end_at(s: Seq<char>) -> (j: int)
    ensures
        0 <= j <= s.len(),
        trim_end(s) == s.take(j),
        forall|k: int| j <= k < s.len() ==> s[k] == ' ',
        j > 0 ==> s[j - 1] != ' ',
    decreases s.len(),
{
    if s.len() > 0 && s.last() == ' ' {
        let front = s.drop_last();
        let j = lemma_trim_end_at(front);
        assert(front.take(j) =~= s.take(j));
        assert forall|k: int| j <= k < s.len() implies s[k] == ' ' by {
            if k < s.len() - 1 {
                assert(front[k] == s[k]);
            }
        }
        j
    } else {
        assert(s.take(s.len() as int) =~= s);
        s.len() as int
    }
}

/// Whether `sentences` are what lies between neighbouring `cuts` of `text`, trimmed, one for each
/// pair of neighbours.
pub open spec fn lie_between(
    text: Seq<char>,
    cuts: Seq<int>,
    sentences: Seq<Seq<char>>,
) -> bool {
    &&& cuts.len() == sentences.len() + 1
    &&& forall|j: int, k: int| 0 <= j < k < cuts.len() ==> cuts[j] < cuts[k]
    &&& forall|k: int|
        #![trigger sentences[k]]
        0 <= k < sentences.len() ==> is_trimming(
            byte_slice(text, cuts[k], cuts[k + 1]),
            sentences[k],
        )
}

/// The parts of a text between boundaries in order, as sentences: one for each pair of neighbouring
/// boundaries that differ, the end of the text being the last of them.
pub proof fn law_parts_lie_between_boundaries(text: Seq<char>, boundaries: Seq<int>) -> (cuts: Seq<
    int,
>)
    requires
        in_order(text, boundaries),
        boundaries.len() > 0,
    ensures
        lie_between(text, cuts, kept(slices(text, boundaries))),
        cuts[0] == boundaries[0],
        cuts.last() == byte_len(text),
        forall|b: int| #[trigger]
            cuts.contains(b) <==> boundaries.contains(b) || b == byte_len(text),
{
    let parts = slices(text, boundaries);
    let n = boundaries.len() as int;
    let cuts = lemma_cuts(text, boundaries, n);
    assert(parts.take(n) =~= parts);
    assert(boundaries.take(n) =~= boundaries);
    cuts
}

spec fn end_before(text: Seq<char>, boundaries: Seq<int>, n: int) -> int {
    if n < boundaries.len() {
        boundaries[n]
    } else {
        byte_len(text) as int
    }
}

proof fn lemma_cuts(text: Seq<char>, boundaries: Seq<int>, n: int) -> (cuts: Seq<int>)
    requires
        in_order(text, boundaries),
        0 <= n <= boundaries.len(),
        boundaries.len() > 0,
    ensures
        lie_between(text, cuts, kept(slices(text, boundaries).take(n))),
        cuts[0] == boundaries[0],
        cuts.last() == end_before(text, boundaries, n),
        forall|b: int| #[trigger]
            cuts.contains(b) <==> boundaries.take(n).contains(b) || b == end_before(
                text,
                boundaries,
                n,
            ),
    decreases n,
{
    let parts = slices(text, boundaries);
    if n == 0 {
        let cuts = seq![boundaries[0]];
        assert(parts.take(0) =~= Seq::<Seq<char>>::empty());
        assert(boundaries.take(0) =~= Seq::<int>::empty());
        assert(cuts[0] == boundaries[0]);
        assert(kept(parts.take(0)) =~= Seq::<Seq<char>>::empty());
        cuts
    } else {
        let before = lemma_cuts(text, boundaries, n - 1);
        let start = boundaries[n - 1];
        let end = end_before(text, boundaries, n);
        let part = parts[n - 1];
        crate::text::lemma_ends(text);
        assert(at_boundary(text, start));
        assert(at_boundary(text, end));
        assert(start <= end);
        assert(end == slice_end(text, boundaries, n - 1));
        assert(part == byte_slice(text, start, end));
        crate::text::lemma_slice_bytes(text, start, end);
        crate::text::lemma_byte_len_zero(part);
        assert(parts.take(n).drop_last() =~= parts.take(n - 1));
        assert(parts.take(n).last() == part);
        assert(boundaries.take(n) =~= boundaries.take(n - 1).push(start));
        assert(before.last() == start);
        let sentences = kept(parts.take(n - 1));
        let cuts = if start < end {
            before.push(end)
        } else {
            before
        };
        assert forall|b: int| #[trigger]
            cuts.contains(b) <==> boundaries.take(n).contains(b) || b == end by {
            let earlier = boundaries.take(n - 1);
            let now = boundaries.take(n);
            assert(now[n - 1] == start);
            if cuts.contains(b) {
                let k = cuts.index_of(b);
                if k < before.len() {
                    assert(before[k] == b);
                    assert(before.contains(b));
                    if earlier.contains(b) {
                        assert(now[earlier.index_of(b)] == b);
                    }
                }
            }
            if now.contains(b) {
                let k = now.index_of(b);
                if k < n - 1 {
                    assert(earlier[k] == b);
                    assert(earlier.contains(b));
                }
                assert(before.contains(b));
                assert(cuts[before.index_of(b)] == b);
            }
            if b == end {
                assert(cuts[cuts.len() - 1] == end);
            }
        }
        if start < end {
            law_trimming(part);
            assert(kept(parts.take(n)) == sentences.push(trim(part)));
            assert forall|k: int|
                #![trigger sentences.push(trim(part))[k]]
                0 <= k < sentences.push(trim(part)).len() implies is_trimming(
                byte_slice(text, cuts[k], cuts[k + 1]),
                sentences.push(trim(part))[k],
            ) by {
                if k < sentences.len() {
                    assert(sentences.push(trim(part))[k] == sentences[k]);
                    assert(cuts[k] == before[k] && cuts[k + 1] == before[k + 1]);
                }
            }
        }
        cuts
    }
}

/// The sentences of a paragraph are what lies between neighbouring places where it is cut, trimmed:
/// its boundaries and its end.
pub proof fn law_sentences_lie_between_boundaries(
    model: LanguageModel,
    paragraph: Seq<char>,
) -> (cuts: Seq<int>)
    requires
        model.paragraph_defined(paragraph),
    ensures
        lie_between(paragraph, cuts, model.paragraph_sentences(paragraph)),
        cuts[0] == 0,
        cuts.last() == byte_len(paragraph),
        forall|b: int| #[trigger]
            cuts.contains(b) <==> b == 0 || b == byte_len(paragraph) || exists|i: int| #[trigger]
                terminator_ends_at(model, paragraph, i, b),
{
    let boundaries = model.boundaries(paragraph);
    assert(boundaries[0] == 0);
    law_boundaries_are_where_terminators_end_sentences(model, paragraph);
    let cuts = law_parts_lie_between_boundaries(paragraph, boundaries);
    assert forall|b: int| #[trigger] cuts.contains(b) <==> b == 0 || b == byte_len(paragraph)
        || exists|i: int| #[trigger] terminator_ends_at(model, paragraph, i, b) by {
        assert(cuts.contains(b) <==> boundaries.contains(b) || b == byte_len(paragraph));
    }
    cuts
}

} // verus!
