//! What holds of segmentation as a whole.

use vstd::prelude::*;

use crate::constants::{CONSECUTIVE_NEWLINES, GLOBAL_SENTENCE_TERMINATORS, WORD_SEPARATORS};
use crate::graphemes::{clusters, grapheme_starts, next_after};
use crate::incremental::probe;
use crate::languages::builtin_tables;
use crate::pattern::{char_runs, class_pattern, pattern_spans, spans_in, Span};
use crate::rules::{
    admitted, continues, first_around, in_order, inside, kept, last_word, listed_abbreviation,
    listed_exclamation, or_next, paragraphs, placed, slices, LanguageModel,
};
use crate::split::{consumed, cuts_fit, split_defined, split_pieces};
use crate::text::{
    at_boundary, byte_len, byte_slice, byte_suffix, concat, is_trimmed, trim, trim_end, trim_start,
};

verus! {

/// `s` without any of its spaces.
pub open spec fn without_spaces(s: Seq<char>) -> Seq<char> {
    s.filter(|c: char| c != ' ')
}

/// Taking the spaces out of two strings one after another is taking them out of each.
proof fn lemma_without_spaces_concat(a: Seq<char>, b: Seq<char>)
    ensures
        without_spaces(a + b) == without_spaces(a) + without_spaces(b),
{
    Seq::filter_distributes_over_add(a, b, |c: char| c != ' ');
}

proof fn lemma_without_spaces_of_space()
    ensures
        without_spaces(seq![' ']) == Seq::<char>::empty(),
{
    reveal(Seq::filter);
    assert(seq![' '].drop_last() =~= Seq::<char>::empty());
    assert(Seq::<char>::empty().filter(|c: char| c != ' ') =~= Seq::<char>::empty());
}

proof fn lemma_trim_start_keeps(s: Seq<char>)
    ensures
        without_spaces(trim_start(s)) == without_spaces(s),
    decreases s.len(),
{
    if s.len() > 0 && s[0] == ' ' {
        let rest = s.drop_first();
        assert(seq![' '] + rest =~= s);
        lemma_without_spaces_concat(seq![' '], rest);
        lemma_without_spaces_of_space();
        assert(Seq::<char>::empty() + without_spaces(rest) =~= without_spaces(rest));
        lemma_trim_start_keeps(rest);
    }
}

proof fn lemma_trim_end_keeps(s: Seq<char>)
    ensures
        without_spaces(trim_end(s)) == without_spaces(s),
    decreases s.len(),
{
    if s.len() > 0 && s.last() == ' ' {
        let rest = s.drop_last();
        assert(rest + seq![' '] =~= s);
        lemma_without_spaces_concat(rest, seq![' ']);
        lemma_without_spaces_of_space();
        assert(without_spaces(rest) + Seq::<char>::empty() =~= without_spaces(rest));
        lemma_trim_end_keeps(rest);
    }
}

/// Trimming takes away nothing but spaces.
pub proof fn law_trim_keeps_all_but_spaces(s: Seq<char>)
    ensures
        without_spaces(trim(s)) == without_spaces(s),
        is_trimmed(trim(s)),
{
    lemma_trim_start_keeps(s);
    lemma_trim_end_keeps(trim_start(s));
    crate::text::lemma_trim(s);
}

/// Concatenating two lists of strings is concatenating each.
proof fn lemma_concat_add(a: Seq<Seq<char>>, b: Seq<Seq<char>>)
    ensures
        concat(a + b) == concat(a) + concat(b),
    decreases b.len(),
{
    if b.len() == 0 {
        assert(a + b =~= a);
        assert(concat(a) + concat(b) =~= concat(a));
    } else {
        assert((a + b).drop_last() =~= a + b.drop_last());
        lemma_concat_add(a, b.drop_last());
        assert(concat(a + b) =~= concat(a) + concat(b));
    }
}

proof fn lemma_concat_push(a: Seq<Seq<char>>, s: Seq<char>)
    ensures
        concat(a.push(s)) == concat(a) + s,
{
    assert(a.push(s).drop_last() =~= a);
}

/// Dropping empty parts and trimming the others takes away nothing but spaces.
proof fn lemma_kept(parts: Seq<Seq<char>>)
    ensures
        without_spaces(concat(kept(parts))) == without_spaces(concat(parts)),
        forall|k: int| 0 <= k < kept(parts).len() ==> is_trimmed(#[trigger] kept(parts)[k]),
        kept(parts).len() <= parts.len(),
    decreases parts.len(),
{
    if parts.len() > 0 {
        let earlier = parts.drop_last();
        let last = parts.last();
        lemma_kept(earlier);
        lemma_without_spaces_concat(concat(earlier), last);
        if last.len() > 0 {
            law_trim_keeps_all_but_spaces(last);
            lemma_concat_push(kept(earlier), trim(last));
            lemma_without_spaces_concat(concat(kept(earlier)), trim(last));
        } else {
            assert(concat(parts) =~= concat(earlier));
        }
    }
}

/// The parts of a text up to a boundary make up the text up to there.
proof fn lemma_slices_prefix(text: Seq<char>, boundaries: Seq<int>, k: int)
    requires
        in_order(text, boundaries),
        boundaries.len() > 0,
        boundaries[0] == 0,
        0 <= k < boundaries.len(),
    ensures
        concat(slices(text, boundaries).take(k)) == byte_slice(text, 0, boundaries[k]),
    decreases k,
{
    let parts = slices(text, boundaries);
    if k == 0 {
        assert(parts.take(0) =~= Seq::<Seq<char>>::empty());
        crate::text::lemma_ends(text);
        crate::text::lemma_slice_empty(text, 0);
    } else {
        lemma_slices_prefix(text, boundaries, k - 1);
        assert(parts.take(k) =~= parts.take(k - 1).push(parts[k - 1]));
        lemma_concat_push(parts.take(k - 1), parts[k - 1]);
        crate::text::lemma_ends(text);
        crate::text::lemma_slice_concat(text, 0, boundaries[k - 1], boundaries[k]);
    }
}

/// The parts between boundaries that are in order, the first of them at the start, make up the
/// text again.
pub proof fn law_slices_make_up_the_text(text: Seq<char>, boundaries: Seq<int>)
    requires
        in_order(text, boundaries),
        boundaries.len() > 0,
        boundaries[0] == 0,
    ensures
        concat(slices(text, boundaries)) == text,
{
    let parts = slices(text, boundaries);
    let n = boundaries.len() as int;
    lemma_slices_prefix(text, boundaries, n - 1);
    assert(parts =~= parts.take(n - 1).push(parts[n - 1]));
    lemma_concat_push(parts.take(n - 1), parts[n - 1]);
    crate::text::lemma_ends(text);
    crate::text::lemma_slice_concat(text, 0, boundaries[n - 1], byte_len(text) as int);
    crate::text::lemma_slice_all(text);
}

/// The sentences of a paragraph hold all of it but spaces, in order; none of them starts or ends
/// with a space.
pub proof fn law_paragraph_keeps_all_but_spaces(model: LanguageModel, paragraph: Seq<char>)
    requires
        model.paragraph_defined(paragraph),
    ensures
        without_spaces(concat(model.paragraph_sentences(paragraph))) == without_spaces(paragraph),
        forall|k: int|
            0 <= k < model.paragraph_sentences(paragraph).len() ==> is_trimmed(
                #[trigger] model.paragraph_sentences(paragraph)[k],
            ),
{
    let boundaries = model.boundaries(paragraph);
    assert(boundaries[0] == 0);
    law_slices_make_up_the_text(paragraph, boundaries);
    lemma_kept(slices(paragraph, boundaries));
}

/// A split at no match, or at one, loses nothing: its pieces make up the text again.
pub proof fn law_split_at_one_match_loses_nothing(text: Seq<char>, spans: Seq<Span>)
    requires
        spans_in(text, spans),
        spans.len() <= 1,
    ensures
        split_defined(text, spans),
        concat(split_pieces(text, spans)) == text,
{
    let pieces = split_pieces(text, spans);
    let n = spans.len() as int;
    let len = byte_len(text) as int;
    crate::text::lemma_ends(text);
    crate::text::lemma_slice_all(text);
    crate::text::lemma_byte_len_zero(text);
    if n == 0 {
        if len == 0 {
            assert(pieces =~= Seq::<Seq<char>>::empty());
        } else {
            assert(pieces =~= Seq::<Seq<char>>::empty().push(text));
            lemma_concat_push(Seq::empty(), text);
        }
        assert(concat(pieces) =~= text);
    } else {
        let start = spans[0].0 as int;
        let end = spans[0].1 as int;
        assert(consumed(spans, 0) == 0);
        assert(consumed(spans, 1) == end);
        let front = byte_slice(text, 0, start);
        let separator = byte_slice(text, start, end);
        let rest = byte_suffix(text, end);
        crate::text::lemma_slice_concat(text, 0, start, end);
        crate::text::lemma_slice_concat(text, 0, end, len);
        let two = Seq::<Seq<char>>::empty().push(front).push(separator);
        lemma_concat_push(Seq::empty(), front);
        lemma_concat_push(Seq::empty().push(front), separator);
        assert(concat(two) =~= front + separator);
        if end < len {
            assert(pieces =~= two.push(rest));
            lemma_concat_push(two, rest);
        } else {
            assert(pieces =~= two);
        }
    }
}

/// How many bytes the first `k` matches have together.
pub open spec fn matched_len(spans: Seq<Span>, k: int) -> int
    decreases k,
{
    if k <= 0 {
        0
    } else {
        matched_len(spans, k - 1) + (spans[k - 1].1 - spans[k - 1].0)
    }
}

proof fn lemma_fronts_len(text: Seq<char>, spans: Seq<Span>, k: int)
    requires
        spans_in(text, spans),
        split_defined(text, spans),
        0 <= k <= spans.len(),
    ensures
        at_boundary(text, consumed(spans, k)),
        byte_len(concat(split_pieces(text, spans).take(k))) == consumed(spans, k) - matched_len(
            spans,
            k,
        ),
    decreases k,
{
    let pieces = split_pieces(text, spans);
    crate::text::lemma_ends(text);
    if k == 0 {
        assert(pieces.take(0) =~= Seq::<Seq<char>>::empty());
        crate::text::lemma_byte_len_zero(concat(pieces.take(0)));
    } else {
        lemma_fronts_len(text, spans, k - 1);
        let c = consumed(spans, k - 1);
        assert(cuts_fit(text, spans, k - 1));
        assert(pieces.take(k) =~= pieces.take(k - 1).push(pieces[k - 1]));
        assert(pieces[k - 1] == byte_slice(text, c, c + spans[k - 1].0));
        lemma_concat_push(pieces.take(k - 1), pieces[k - 1]);
        crate::text::lemma_encode_concat(concat(pieces.take(k - 1)), pieces[k - 1]);
        crate::text::lemma_slice_bytes(text, c, c + spans[k - 1].0);
    }
}

/// The pieces of a split are shorter than the text by all matches but the last: only the last
/// match is handed out.
pub proof fn law_split_loses_all_matches_but_the_last(text: Seq<char>, spans: Seq<Span>)
    requires
        spans_in(text, spans),
        split_defined(text, spans),
    ensures
        byte_len(concat(split_pieces(text, spans))) == byte_len(text) - matched_len(
            spans,
            spans.len() - 1,
        ),
{
    let pieces = split_pieces(text, spans);
    let n = spans.len() as int;
    if n <= 1 {
        law_split_at_one_match_loses_nothing(text, spans);
    } else {
        lemma_fronts_len(text, spans, n);
        let start = spans[n - 1].0 as int;
        let end = spans[n - 1].1 as int;
        let c = consumed(spans, n);
        let fronts = pieces.take(n);
        let separator = byte_slice(text, start, end);
        let rest = byte_suffix(text, c);
        crate::text::lemma_ends(text);
        crate::text::lemma_slice_bytes(text, start, end);
        crate::text::lemma_slice_bytes(text, c, byte_len(text) as int);
        lemma_concat_push(fronts, separator);
        crate::text::lemma_encode_concat(concat(fronts), separator);
        assert(pieces[n] == separator);
        if c < byte_len(text) {
            assert(pieces =~= fronts.push(separator).push(rest));
            lemma_concat_push(fronts.push(separator), rest);
            crate::text::lemma_encode_concat(concat(fronts.push(separator)), rest);
        } else {
            assert(pieces =~= fronts.push(separator));
        }
    }
}

/// How often empty lines separate paragraphs of `text`.
pub open spec fn separators(text: Seq<char>) -> Seq<Span> {
    char_runs(text, seq!['\n'], 2, 0)
}

/// Whether `text` holds no empty line: no line feed in it follows another.
pub open spec fn has_no_empty_lines(text: Seq<char>) -> bool {
    forall|k: int|
        0 <= k < text.len() - 1 ==> !((#[trigger] text[k]) == '\n' && text[k + 1] == '\n')
}

proof fn lemma_matched_len(spans: Seq<Span>, k: int)
    requires
        0 <= k <= spans.len(),
        forall|i: int| 0 <= i < spans.len() ==> (#[trigger] spans[i]).0 < spans[i].1,
    ensures
        matched_len(spans, k) >= k,
    decreases k,
{
    if k > 0 {
        lemma_matched_len(spans, k - 1);
        assert(spans[k - 1].0 < spans[k - 1].1);
    }
}

/// The paragraphs of a text make it up again exactly when there is at most one place with empty
/// lines.
pub proof fn law_paragraphs_make_up_the_text(text: Seq<char>)
    requires
        byte_len(text) <= usize::MAX,
        split_defined(text, pattern_spans(CONSECUTIVE_NEWLINES@, text)),
    ensures
        concat(paragraphs(text)) == text <==> separators(text).len() <= 1,
{
    let spans = separators(text);
    crate::pattern::lemma_empty_line_spans(text);
    crate::pattern::lemma_char_runs(text, seq!['\n'], 2, 0);
    if spans.len() <= 1 {
        law_split_at_one_match_loses_nothing(text, spans);
    } else {
        law_split_loses_all_matches_but_the_last(text, spans);
        lemma_matched_len(spans, spans.len() - 1);
    }
}

proof fn lemma_sentences_of(model: LanguageModel, parts: Seq<Seq<char>>)
    requires
        forall|k: int| 0 <= k < parts.len() ==> model.paragraph_defined(#[trigger] parts[k]),
    ensures
        without_spaces(concat(model.sentences_of(parts))) == without_spaces(concat(parts)),
        forall|k: int|
            0 <= k < model.sentences_of(parts).len() ==> is_trimmed(
                #[trigger] model.sentences_of(parts)[k],
            ),
    decreases parts.len(),
{
    if parts.len() > 0 {
        let earlier = parts.drop_last();
        let last = parts.last();
        assert forall|k: int| 0 <= k < earlier.len() implies model.paragraph_defined(
            #[trigger] earlier[k],
        ) by {
            assert(earlier[k] == parts[k]);
        }
        lemma_sentences_of(model, earlier);
        law_paragraph_keeps_all_but_spaces(model, last);
        let front = model.sentences_of(earlier);
        let back = model.paragraph_sentences(last);
        lemma_concat_add(front, back);
        lemma_without_spaces_concat(concat(front), concat(back));
        lemma_without_spaces_concat(concat(earlier), last);
    }
}

/// No sentence starts or ends with a space.
pub proof fn law_sentences_are_trimmed(model: LanguageModel, text: Seq<char>)
    requires
        model.text_defined(text),
    ensures
        forall|k: int|
            0 <= k < model.sentences(text).len() ==> is_trimmed(
                #[trigger] model.sentences(text)[k],
            ),
{
    lemma_sentences_of(model, paragraphs(text));
}

/// The sentences of a text hold all of its paragraphs but spaces, in order. So they hold all of
/// the text but spaces when there is at most one place with empty lines.
pub proof fn law_sentences_keep_all_but_spaces(model: LanguageModel, text: Seq<char>)
    requires
        byte_len(text) <= usize::MAX,
        model.text_defined(text),
    ensures
        without_spaces(concat(model.sentences(text))) == without_spaces(concat(paragraphs(text))),
        separators(text).len() <= 1 ==> without_spaces(concat(model.sentences(text)))
            == without_spaces(text),
{
    law_paragraphs_make_up_the_text(text);
    lemma_sentences_of(model, paragraphs(text));
}

/// A text without empty lines is one paragraph, or none if it is empty.
pub proof fn law_text_without_empty_lines_is_one_paragraph(text: Seq<char>)
    requires
        has_no_empty_lines(text),
    ensures
        split_defined(text, pattern_spans(CONSECUTIVE_NEWLINES@, text)),
        paragraphs(text) == if text.len() == 0 {
            Seq::empty()
        } else {
            seq![text]
        },
{
    let class = seq!['\n'];
    assert forall|k: int| 0 <= k < text.len() - 1 implies !(class.contains(#[trigger] text[k])
        && class.contains(text[k + 1])) by {}
    crate::pattern::lemma_no_pairs(text, class, 0);
    crate::pattern::lemma_empty_line_spans(text);
    crate::text::lemma_byte_len_zero(text);
    crate::text::lemma_slice_all(text);
    assert(paragraphs(text) =~= if text.len() == 0 {
        Seq::empty()
    } else {
        seq![text]
    });
}

/// A paragraph without any terminator is one sentence.
pub proof fn law_paragraph_without_terminators_is_one_sentence(
    model: LanguageModel,
    paragraph: Seq<char>,
)
    requires
        pattern_spans(model.sentence_break, paragraph).len() == 0,
        paragraph.len() > 0,
        model.skippable(paragraph) is Some,
    ensures
        model.paragraph_defined(paragraph),
        model.paragraph_sentences(paragraph) == seq![trim(paragraph)],
{
    let boundaries = model.boundaries(paragraph);
    assert(boundaries =~= seq![0int]);
    crate::text::lemma_ends(paragraph);
    crate::text::lemma_slice_all(paragraph);
    let parts = slices(paragraph, boundaries);
    assert(parts =~= seq![paragraph]);
    assert(parts.drop_last() =~= Seq::<Seq<char>>::empty());
    assert(kept(parts.drop_last()) =~= Seq::<Seq<char>>::empty());
    assert(kept(parts) =~= seq![trim(paragraph)]);
}

/// A text without terminators and without empty lines is one sentence, or none if it is empty.
pub proof fn law_text_without_terminators_is_one_sentence(model: LanguageModel, text: Seq<char>)
    requires
        pattern_spans(model.sentence_break, text).len() == 0,
        has_no_empty_lines(text),
        text.len() > 0 ==> model.skippable(text) is Some,
    ensures
        model.text_defined(text),
        model.sentences(text) == if text.len() == 0 {
            Seq::empty()
        } else {
            seq![trim(text)]
        },
{
    law_text_without_empty_lines_is_one_paragraph(text);
    if text.len() > 0 {
        law_paragraph_without_terminators_is_one_sentence(model, text);
        let parts = seq![text];
        assert(parts.drop_last() =~= Seq::<Seq<char>>::empty());
        assert(model.sentences_of(parts.drop_last()) =~= Seq::<Seq<char>>::empty());
        assert(model.sentences_of(parts) =~= seq![trim(text)]);
    }
}

/// With the languages that this library brings along, a text without any of the characters that can
/// end a sentence has no terminators.
proof fn lemma_builtin_no_terminators(code: Seq<char>, text: Seq<char>)
    requires
        forall|k: int|
            0 <= k < text.len() ==> !GLOBAL_SENTENCE_TERMINATORS@.contains(#[trigger] text[k]),
    ensures
        pattern_spans(builtin_tables().rules(code).sentence_break, text).len() == 0,
{
    let class = GLOBAL_SENTENCE_TERMINATORS@;
    crate::languages::law_every_code_is_served(code);
    crate::pattern::lemma_terminators_are_plain();
    crate::pattern::lemma_class_spans(class, text);
    crate::pattern::lemma_no_runs(text, class, 1, 0);
    assert(builtin_tables().rules(code).sentence_break == class_pattern(class));
}

/// With the languages that this library brings along, a text without any of the characters that
/// can end a sentence, and without empty lines, is one sentence, or none if it is empty.
pub proof fn law_builtin_text_without_terminators_is_one_sentence(code: Seq<char>, text: Seq<char>)
    requires
        forall|k: int|
            0 <= k < text.len() ==> !GLOBAL_SENTENCE_TERMINATORS@.contains(#[trigger] text[k]),
        has_no_empty_lines(text),
        text.len() > 0 ==> builtin_tables().rules(code).skippable(text) is Some,
    ensures
        builtin_tables().rules(code).text_defined(text),
        builtin_tables().rules(code).sentences(text) == if text.len() == 0 {
            Seq::empty()
        } else {
            seq![trim(text)]
        },
{
    lemma_builtin_no_terminators(code, text);
    law_text_without_terminators_is_one_sentence(builtin_tables().rules(code), text);
}

/// Whether `a` and `b` are paragraphs, either of them possibly empty, that the line feeds `lines`
/// separate.
pub open spec fn separates(a: Seq<char>, lines: Seq<char>, b: Seq<char>) -> bool {
    &&& has_no_empty_lines(a)
    &&& has_no_empty_lines(b)
    &&& a.len() > 0 ==> a.last() != '\n'
    &&& b.len() > 0 ==> b[0] != '\n'
    &&& lines.len() >= 2
    &&& forall|k: int| 0 <= k < lines.len() ==> #[trigger] lines[k] == '\n'
}

/// What is separated by empty lines in one place splits into what stands before them, the empty
/// lines, and what stands behind them.
proof fn lemma_separated_paragraphs(a: Seq<char>, lines: Seq<char>, b: Seq<char>)
    requires
        separates(a, lines, b),
        byte_len(a + lines + b) <= usize::MAX,
    ensures
        split_defined(a + lines + b, pattern_spans(CONSECUTIVE_NEWLINES@, a + lines + b)),
        paragraphs(a + lines + b) == if b.len() > 0 {
            seq![a, lines, b]
        } else {
            seq![a, lines]
        },
{
    let text = a + lines + b;
    let class = seq!['\n'];
    let s = a.len() as int;
    let e = s + lines.len();
    assert(class[0] == '\n');
    assert forall|k: int| s <= k < e implies class.contains(#[trigger] text[k]) by {
        assert(text[k] == lines[k - s]);
    }
    assert forall|k: int| 0 <= k < s - 1 || e <= k < text.len() - 1 implies !(class.contains(
        #[trigger] text[k],
    ) && class.contains(text[k + 1])) by {
        if k < s {
            assert(text[k] == a[k] && text[k + 1] == a[k + 1]);
        } else {
            assert(text[k] == b[k - e] && text[k + 1] == b[k - e + 1]);
        }
    }
    crate::pattern::lemma_one_run(text, class, 0, s, e);
    crate::pattern::lemma_empty_line_spans(text);
    crate::pattern::lemma_char_runs(text, class, 2, 0);
    let spans = pattern_spans(CONSECUTIVE_NEWLINES@, text);
    law_split_at_one_match_loses_nothing(text, spans);
    assert(text.take(s) =~= a);
    assert(text.take(e) =~= a + lines);
    crate::text::lemma_encode_concat(a, lines);
    crate::text::lemma_encode_concat(a + lines, b);
    crate::text::lemma_byte_len_zero(b);
    assert(Seq::<char>::empty() + a + (lines + b) =~= text);
    assert(Seq::<char>::empty() + a =~= a);
    crate::text::lemma_byte_len_zero(Seq::<char>::empty());
    crate::text::lemma_prefix_slice(Seq::empty(), a, lines + b);
    crate::text::lemma_prefix_slice(a, lines, b);
    assert(a + lines + b + Seq::<char>::empty() =~= text);
    crate::text::lemma_prefix_slice(a + lines, b, Seq::empty());
    assert(consumed(spans, 0) == 0);
    assert(consumed(spans, 1) == byte_len(a + lines));
    assert(paragraphs(text) =~= if b.len() > 0 {
        seq![a, lines, b]
    } else {
        seq![a, lines]
    });
}

/// Parts of which none holds anything leave nothing.
proof fn lemma_nothing_kept(parts: Seq<Seq<char>>)
    requires
        forall|k: int| 0 <= k < parts.len() ==> (#[trigger] parts[k]).len() == 0,
    ensures
        kept(parts) == Seq::<Seq<char>>::empty(),
    decreases parts.len(),
{
    if parts.len() > 0 {
        lemma_nothing_kept(parts.drop_last());
    }
}

/// An empty paragraph has no sentences.
proof fn lemma_empty_paragraph(model: LanguageModel)
    requires
        model.paragraph_defined(Seq::empty()),
    ensures
        model.paragraph_sentences(Seq::empty()) == Seq::<Seq<char>>::empty(),
{
    let text = Seq::<char>::empty();
    let boundaries = model.boundaries(text);
    let parts = slices(text, boundaries);
    crate::text::lemma_byte_len_zero(text);
    crate::text::lemma_ends(text);
    crate::text::lemma_slice_empty(text, 0);
    assert forall|k: int| 0 <= k < parts.len() implies (#[trigger] parts[k]).len() == 0 by {
        assert(at_boundary(text, boundaries[k]));
        if k + 1 < boundaries.len() {
            assert(at_boundary(text, boundaries[k + 1]));
        }
    }
    lemma_nothing_kept(parts);
}

/// The sentences of a text without empty lines are those of its one paragraph.
proof fn lemma_sentences_of_one(model: LanguageModel, text: Seq<char>)
    requires
        has_no_empty_lines(text),
        model.paragraph_defined(text),
    ensures
        model.text_defined(text),
        model.sentences(text) == model.paragraph_sentences(text),
{
    law_text_without_empty_lines_is_one_paragraph(text);
    if text.len() == 0 {
        assert(text =~= Seq::<char>::empty());
        lemma_empty_paragraph(model);
    } else {
        let parts = seq![text];
        assert(parts.drop_last() =~= Seq::<Seq<char>>::empty());
        assert(model.sentences_of(parts.drop_last()) =~= Seq::<Seq<char>>::empty());
        assert(model.sentences_of(parts) =~= model.paragraph_sentences(text));
    }
}

/// Paragraphs are segmented on their own: the sentences of two paragraphs with empty lines between
/// them are those of the first, then those of the empty lines, then those of the second.
pub proof fn law_paragraphs_are_segmented_on_their_own(
    model: LanguageModel,
    a: Seq<char>,
    lines: Seq<char>,
    b: Seq<char>,
)
    requires
        separates(a, lines, b),
        byte_len(a + lines + b) <= usize::MAX,
        model.text_defined(a + lines + b),
    ensures
        model.text_defined(a),
        model.text_defined(b),
        model.sentences(a + lines + b) == model.sentences(a) + model.paragraph_sentences(lines)
            + model.sentences(b),
{
    let text = a + lines + b;
    lemma_separated_paragraphs(a, lines, b);
    let parts = paragraphs(text);
    assert(parts[0] == a && parts[1] == lines);
    lemma_sentences_of_one(model, a);
    let one = seq![a];
    let two = seq![a, lines];
    assert(one.drop_last() =~= Seq::<Seq<char>>::empty());
    assert(model.sentences_of(one.drop_last()) =~= Seq::<Seq<char>>::empty());
    assert(model.sentences_of(one) =~= model.sentences(a));
    assert(two.drop_last() =~= one);
    assert(model.sentences_of(two) == model.sentences(a) + model.paragraph_sentences(lines));
    if b.len() > 0 {
        assert(parts[2] == b);
        lemma_sentences_of_one(model, b);
        assert(parts.drop_last() =~= two);
    } else {
        law_text_without_empty_lines_is_one_paragraph(b);
        assert(model.sentences(b) =~= Seq::<Seq<char>>::empty());
        assert(model.sentences(text) =~= model.sentences_of(two) + model.sentences(b));
    }
}

/// Where no terminator stands in the empty lines between two paragraphs, they are a sentence of
/// their own.
pub proof fn law_empty_lines_are_a_sentence(
    model: LanguageModel,
    a: Seq<char>,
    lines: Seq<char>,
    b: Seq<char>,
)
    requires
        separates(a, lines, b),
        byte_len(a + lines + b) <= usize::MAX,
        model.text_defined(a + lines + b),
        pattern_spans(model.sentence_break, lines).len() == 0,
    ensures
        model.sentences(a + lines + b) == model.sentences(a) + seq![lines] + model.sentences(b),
{
    law_paragraphs_are_segmented_on_their_own(model, a, lines, b);
    lemma_separated_paragraphs(a, lines, b);
    assert(paragraphs(a + lines + b)[1] == lines);
    law_paragraph_without_terminators_is_one_sentence(model, lines);
    assert(lines[0] == '\n' && lines.last() == '\n');
    assert(trim(lines) == lines);
}

/// With the languages that this library brings along, the empty lines between two paragraphs are a
/// sentence of their own.
pub proof fn law_builtin_empty_lines_are_a_sentence(
    code: Seq<char>,
    a: Seq<char>,
    lines: Seq<char>,
    b: Seq<char>,
)
    requires
        separates(a, lines, b),
        byte_len(a + lines + b) <= usize::MAX,
        builtin_tables().rules(code).text_defined(a + lines + b),
    ensures
        builtin_tables().rules(code).sentences(a + lines + b) == builtin_tables().rules(
            code,
        ).sentences(a) + seq![lines] + builtin_tables().rules(code).sentences(b),
{
    crate::pattern::lemma_terminators_are_plain();
    lemma_builtin_no_terminators(code, lines);
    law_empty_lines_are_a_sentence(builtin_tables().rules(code), a, lines, b);
}

/// A paragraph has at most one sentence more than it has terminators.
pub proof fn law_sentences_are_no_more_than_terminators(model: LanguageModel, paragraph: Seq<char>)
    ensures
        model.paragraph_sentences(paragraph).len() <= pattern_spans(
            model.sentence_break,
            paragraph,
        ).len() + 1,
{
    let offsets = grapheme_starts(paragraph);
    lemma_made_len(
        model,
        paragraph,
        clusters(paragraph, offsets),
        offsets,
        model.skippable(paragraph)->0,
        pattern_spans(model.sentence_break, paragraph),
    );
    lemma_kept(slices(paragraph, model.boundaries(paragraph)));
}

proof fn lemma_made_len(
    model: LanguageModel,
    text: Seq<char>,
    table: Map<usize, Seq<char>>,
    offsets: Seq<usize>,
    ranges: Seq<Span>,
    ms: Seq<Span>,
)
    ensures
        model.made(text, table, offsets, ranges, ms).len() <= ms.len(),
    decreases ms.len(),
{
    if ms.len() > 0 {
        lemma_made_len(model, text, table, offsets, ranges, ms.drop_last());
    }
}

/// Where no range is found around `b`, it lies inside none.
proof fn lemma_first_around(ranges: Seq<Span>, b: int)
    ensures
        first_around(ranges, b) is None <==> forall|k: int|
            0 <= k < ranges.len() ==> !inside(#[trigger] ranges[k], b),
    decreases ranges.len(),
{
    if ranges.len() > 0 {
        let rest = ranges.drop_first();
        lemma_first_around(rest, b);
        if first_around(ranges, b) is None {
            assert forall|k: int| 0 <= k < ranges.len() implies !inside(
                #[trigger] ranges[k],
                b,
            ) by {
                if k > 0 {
                    assert(ranges[k] == rest[k - 1]);
                }
            }
        } else if !inside(ranges[0], b) {
            let k = choose|k: int| 0 <= k < rest.len() && inside(#[trigger] rest[k], b);
            assert(inside(ranges[k + 1], b));
        }
    }
}

/// Unless sentences may end after a closing quotation mark, a boundary is put where it was found,
/// and only if it lies inside none of the ranges that are not to be broken up.
pub proof fn law_ranges_are_not_broken_up(ranges: Seq<Span>, offsets: Seq<usize>, b: int)
    ensures
        placed(ranges, offsets, false, b) == if forall|k: int|
            0 <= k < ranges.len() ==> !inside(#[trigger] ranges[k], b) {
            Some(b)
        } else {
            None
        },
{
    lemma_first_around(ranges, b);
}

/// Whether `b` is the boundary of one of the terminators `ms`: behind a reference, or else the end
/// of the terminator, outside all ranges that are not to be broken up.
pub open spec fn is_justified(
    model: LanguageModel,
    text: Seq<char>,
    table: Map<usize, Seq<char>>,
    offsets: Seq<usize>,
    ranges: Seq<Span>,
    ms: Seq<Span>,
    b: int,
) -> bool {
    exists|i: int|
        0 <= i < ms.len() && match model.boundary(text, table, offsets, #[trigger] ms[i]) {
            None => false,
            Some((found, behind_reference)) => found == b && (behind_reference || (found == ms[i].1
                && forall|k: int|
                0 <= k < ranges.len() ==> !inside(#[trigger] ranges[k], b))),
        }
}

/// Unless sentences may end after a closing quotation mark, each boundary is that of a terminator:
/// behind a reference, or else the end of the terminator, outside all ranges that are not to be
/// broken up.
pub proof fn law_boundaries_are_justified(
    model: LanguageModel,
    text: Seq<char>,
    table: Map<usize, Seq<char>>,
    offsets: Seq<usize>,
    ranges: Seq<Span>,
    ms: Seq<Span>,
)
    requires
        !model.punctuation_between_quotes,
    ensures
        forall|j: int|
            0 <= j < model.made(text, table, offsets, ranges, ms).len() ==> is_justified(
                model,
                text,
                table,
                offsets,
                ranges,
                ms,
                #[trigger] model.made(text, table, offsets, ranges, ms)[j],
            ),
    decreases ms.len(),
{
    if ms.len() > 0 {
        let earlier = ms.drop_last();
        let made = model.made(text, table, offsets, ranges, ms);
        let before = model.made(text, table, offsets, ranges, earlier);
        law_boundaries_are_justified(model, text, table, offsets, ranges, earlier);
        assert forall|j: int| 0 <= j < made.len() implies is_justified(
            model,
            text,
            table,
            offsets,
            ranges,
            ms,
            #[trigger] made[j],
        ) by {
            if j < before.len() {
                assert(made[j] == before[j]);
                assert(is_justified(model, text, table, offsets, ranges, earlier, before[j]));
                let i = choose|i: int|
                    0 <= i < earlier.len() && match model.boundary(
                        text,
                        table,
                        offsets,
                        #[trigger] earlier[i],
                    ) {
                        None => false,
                        Some((found, behind_reference)) => found == made[j] && (behind_reference
                            || (found == earlier[i].1 && forall|k: int|
                            0 <= k < ranges.len() ==> !inside(#[trigger] ranges[k], made[j]))),
                    };
                assert(ms[i] == earlier[i]);
            } else {
                let last = ms.last();
                assert(ms[ms.len() - 1] == last);
                let found = model.boundary(text, table, offsets, last);
                if let Some((b, behind_reference)) = found {
                    law_ranges_are_not_broken_up(ranges, offsets, b);
                }
            }
        }
    }
}

/// What comes of a terminator is one of the boundaries.
proof fn lemma_made_contains(
    model: LanguageModel,
    text: Seq<char>,
    table: Map<usize, Seq<char>>,
    offsets: Seq<usize>,
    ranges: Seq<Span>,
    ms: Seq<Span>,
    i: int,
    b: int,
)
    requires
        0 <= i < ms.len(),
        admitted(
            ranges,
            offsets,
            model.punctuation_between_quotes,
            model.boundary(text, table, offsets, ms[i]),
        ) == Some(b),
    ensures
        model.made(text, table, offsets, ranges, ms).contains(b),
    decreases ms.len(),
{
    let made = model.made(text, table, offsets, ranges, ms);
    let earlier = ms.drop_last();
    let before = model.made(text, table, offsets, ranges, earlier);
    if i == ms.len() - 1 {
        assert(made[before.len() as int] == b);
    } else {
        assert(earlier[i] == ms[i]);
        lemma_made_contains(model, text, table, offsets, ranges, earlier, i, b);
        let j = before.index_of(b);
        assert(made[j] == b);
    }
}

/// A terminator ends a sentence if no reference follows it, nothing suppresses it, and it ends
/// inside none of the ranges that are not to be broken up.
pub proof fn law_terminator_ends_a_sentence(
    model: LanguageModel,
    text: Seq<char>,
    table: Map<usize, Seq<char>>,
    offsets: Seq<usize>,
    ranges: Seq<Span>,
    ms: Seq<Span>,
    i: int,
    next: usize,
)
    requires
        0 <= i < ms.len(),
        next_after(offsets, ms[i].0 as int) == Some(next),
        model.reference(byte_suffix(text, next as int)) is None,
        !model.suppressed(
            byte_slice(text, 0, ms[i].0 as int),
            byte_suffix(text, next as int),
            table[ms[i].0],
        ),
        forall|k: int| 0 <= k < ranges.len() ==> !inside(#[trigger] ranges[k], ms[i].1 as int),
    ensures
        model.made(text, table, offsets, ranges, ms).contains(ms[i].1 as int),
{
    lemma_first_around(ranges, ms[i].1 as int);
    lemma_made_contains(model, text, table, offsets, ranges, ms, i, ms[i].1 as int);
}

/// A terminator with a reference behind it ends a sentence with the reference, whatever else stands
/// around it.
pub proof fn law_reference_belongs_to_its_sentence(
    model: LanguageModel,
    text: Seq<char>,
    table: Map<usize, Seq<char>>,
    offsets: Seq<usize>,
    ranges: Seq<Span>,
    ms: Seq<Span>,
    i: int,
    next: usize,
    reference: Span,
)
    requires
        0 <= i < ms.len(),
        next_after(offsets, ms[i].0 as int) == Some(next),
        model.reference(byte_suffix(text, next as int)) == Some(reference),
    ensures
        model.made(text, table, offsets, ranges, ms).contains(
            or_next(offsets, ms[i].1 + reference.1),
        ),
{
    lemma_made_contains(
        model,
        text,
        table,
        offsets,
        ranges,
        ms,
        i,
        or_next(offsets, ms[i].1 + reference.1),
    );
}

/// The last word of a text is what follows the last of the characters that separate words, or the
/// whole text if there is none.
pub proof fn law_last_word_follows_the_last_separator(text: Seq<char>, start: int)
    requires
        byte_len(text) <= usize::MAX,
        0 <= start <= text.len(),
        start > 0 ==> WORD_SEPARATORS@.contains(text[start - 1]),
        forall|k: int|
            start <= k < text.len() ==> !WORD_SEPARATORS@.contains(#[trigger] text[k]),
    ensures
        last_word(text) == text.skip(start),
{
    crate::pattern::lemma_word_separator_spans(text);
    if start == 0 {
        crate::pattern::lemma_no_runs(text, WORD_SEPARATORS@, 1, 0);
        crate::text::lemma_slice_all(text);
        assert(text.skip(0) =~= text);
    } else {
        crate::pattern::lemma_last_run(text, WORD_SEPARATORS@, 0, start);
        let head = text.take(start);
        let word = text.skip(start);
        assert(head + word =~= text);
        assert(head + word + Seq::<char>::empty() =~= text);
        crate::text::lemma_encode_concat(head, word);
        crate::text::lemma_prefix_slice(head, word, Seq::empty());
    }
}

/// A terminator that closes an abbreviation, or that follows a word that takes an exclamation mark,
/// or behind which the sentence goes on, ends no sentence, unless a reference follows it.
pub proof fn law_suppressed_terminator_makes_no_boundary(
    model: LanguageModel,
    text: Seq<char>,
    table: Map<usize, Seq<char>>,
    offsets: Seq<usize>,
    m: Span,
    next: usize,
)
    requires
        next_after(offsets, m.0 as int) == Some(next),
        model.reference(byte_suffix(text, next as int)) is None,
        ({
            let head = byte_slice(text, 0, m.0 as int);
            let tail = byte_suffix(text, next as int);
            (model.abbreviation)(head, tail, table[m.0]) || (model.exclamation)(head, tail) || (
            model.continuation)(tail)
        }),
    ensures
        model.boundary(text, table, offsets, m) is None,
{
}

/// By the usual rules a terminator is suppressed when a lower-case letter or a digit follows it, when
/// it is the mark of a listed abbreviation, or when it follows a listed word that takes an
/// exclamation mark; otherwise it is not.
pub proof fn law_usual_rules_suppress(
    model: LanguageModel,
    head: Seq<char>,
    tail: Seq<char>,
    separator: Seq<char>,
)
    requires
        model.is_usual(),
    ensures
        model.suppressed(head, tail, separator) <==> {
            ||| continues(tail)
            ||| listed_abbreviation(
                Some(last_word(head)),
                model.abbreviation_char,
                model.abbreviations,
                separator,
            )
            ||| listed_exclamation(Some(last_word(head)), model.exclamation_words)
        },
{
}

/// Whatever is accepted, no byte is lost or doubled: what is handed out and what is kept are
/// together as long as what was collected.
pub proof fn law_accepting_keeps_the_length(model: LanguageModel, buffer: Seq<char>)
    requires
        model.buffer_defined(buffer),
    ensures
        byte_len(
            match model.complete_part(buffer) {
                Some(complete) => complete,
                None => Seq::empty(),
            },
        ) + byte_len(model.open_part(buffer)) == byte_len(buffer),
{
    crate::text::lemma_byte_len_zero(Seq::<char>::empty());
    if let Some(complete) = model.complete_part(buffer) {
        crate::text::lemma_ends(buffer);
        crate::text::lemma_slice_bytes(
            buffer,
            byte_len(complete) as int,
            byte_len(buffer) as int,
        );
    }
}

/// What is kept once `texts` have been accepted one after another, starting with nothing.
pub open spec fn kept_after(model: LanguageModel, texts: Seq<Seq<char>>) -> Seq<char>
    decreases texts.len(),
{
    if texts.len() == 0 {
        Seq::empty()
    } else {
        model.open_part(kept_after(model, texts.drop_last()) + texts.last())
    }
}

/// What is handed out while `texts` are accepted one after another, starting with nothing.
pub open spec fn handed_out(model: LanguageModel, texts: Seq<Seq<char>>) -> Seq<char>
    decreases texts.len(),
{
    if texts.len() == 0 {
        Seq::empty()
    } else {
        let earlier = handed_out(model, texts.drop_last());
        match model.complete_part(kept_after(model, texts.drop_last()) + texts.last()) {
            Some(complete) => earlier + complete,
            None => earlier,
        }
    }
}

/// Whether each of `texts` can be accepted in its turn.
pub open spec fn acceptable(model: LanguageModel, texts: Seq<Seq<char>>) -> bool
    decreases texts.len(),
{
    texts.len() > 0 ==> acceptable(model, texts.drop_last()) && model.buffer_defined(
        kept_after(model, texts.drop_last()) + texts.last(),
    )
}

/// However many texts are accepted, all that is handed out and what is kept in the end are together
/// as long as the texts.
pub proof fn law_accepting_many_keeps_the_length(model: LanguageModel, texts: Seq<Seq<char>>)
    requires
        acceptable(model, texts),
    ensures
        byte_len(handed_out(model, texts)) + byte_len(kept_after(model, texts)) == byte_len(
            concat(texts),
        ),
    decreases texts.len(),
{
    if texts.len() == 0 {
        crate::text::lemma_byte_len_zero(Seq::<char>::empty());
    } else {
        let earlier = texts.drop_last();
        let buffer = kept_after(model, earlier) + texts.last();
        law_accepting_many_keeps_the_length(model, earlier);
        law_accepting_keeps_the_length(model, buffer);
        crate::text::lemma_byte_len_zero(Seq::<char>::empty());
        crate::text::lemma_encode_concat(kept_after(model, earlier), texts.last());
        crate::text::lemma_encode_concat(concat(earlier), texts.last());
        if let Some(complete) = model.complete_part(buffer) {
            crate::text::lemma_encode_concat(handed_out(model, earlier), complete);
        }
    }
}

/// Whether nothing is complete at any step while `texts` are accepted one after another.
pub open spec fn completes_nothing(model: LanguageModel, texts: Seq<Seq<char>>) -> bool
    decreases texts.len(),
{
    texts.len() > 0 ==> completes_nothing(model, texts.drop_last()) && model.complete_part(
        kept_after(model, texts.drop_last()) + texts.last(),
    ) is None
}

/// Where nothing is complete at any step, all that is accepted is kept, and nothing is handed out.
pub proof fn law_what_is_not_complete_is_kept(model: LanguageModel, texts: Seq<Seq<char>>)
    requires
        completes_nothing(model, texts),
    ensures
        kept_after(model, texts) == concat(texts),
        handed_out(model, texts) == Seq::<char>::empty(),
    decreases texts.len(),
{
    if texts.len() > 0 {
        law_what_is_not_complete_is_kept(model, texts.drop_last());
    }
}

/// What is handed out, followed by what is kept, is what was collected exactly when what is handed
/// out is how the collected text starts.
pub proof fn law_accepting_keeps_the_text(model: LanguageModel, buffer: Seq<char>)
    requires
        model.buffer_defined(buffer),
        model.complete_part(buffer) is Some,
    ensures
        model.complete_part(buffer)->0 + model.open_part(buffer) == buffer
            <==> model.complete_part(buffer)->0.is_prefix_of(buffer),
{
    let complete = model.complete_part(buffer)->0;
    let kept_part = model.open_part(buffer);
    if complete.is_prefix_of(buffer) {
        let rest = buffer.skip(complete.len() as int);
        assert(complete + rest =~= buffer);
        assert(complete + rest + Seq::<char>::empty() =~= buffer);
        crate::text::lemma_prefix_slice(complete, rest, Seq::empty());
    }
    if complete + kept_part == buffer {
        assert(buffer.take(complete.len() as int) =~= complete);
    }
}

/// The parts of all of `paragraphs` between their boundaries, one paragraph after another.
spec fn parts_of(model: LanguageModel, paragraphs: Seq<Seq<char>>) -> Seq<Seq<char>>
    decreases paragraphs.len(),
{
    if paragraphs.len() == 0 {
        Seq::empty()
    } else {
        parts_of(model, paragraphs.drop_last()) + slices(
            paragraphs.last(),
            model.boundaries(paragraphs.last()),
        )
    }
}

proof fn lemma_kept_add(a: Seq<Seq<char>>, b: Seq<Seq<char>>)
    ensures
        kept(a + b) == kept(a) + kept(b),
    decreases b.len(),
{
    if b.len() == 0 {
        assert(a + b =~= a);
        assert(kept(a) + kept(b) =~= kept(a));
    } else {
        assert((a + b).drop_last() =~= a + b.drop_last());
        lemma_kept_add(a, b.drop_last());
        assert(kept(a + b) =~= kept(a) + kept(b));
    }
}

/// The parts make up the paragraphs, and what is kept of them are the sentences.
proof fn lemma_parts_of(model: LanguageModel, paragraphs: Seq<Seq<char>>)
    requires
        forall|k: int|
            0 <= k < paragraphs.len() ==> model.paragraph_defined(#[trigger] paragraphs[k]),
    ensures
        kept(parts_of(model, paragraphs)) == model.sentences_of(paragraphs),
        concat(parts_of(model, paragraphs)) == concat(paragraphs),
    decreases paragraphs.len(),
{
    if paragraphs.len() > 0 {
        let earlier = paragraphs.drop_last();
        let last = paragraphs.last();
        assert forall|k: int| 0 <= k < earlier.len() implies model.paragraph_defined(
            #[trigger] earlier[k],
        ) by {
            assert(earlier[k] == paragraphs[k]);
        }
        lemma_parts_of(model, earlier);
        let boundaries = model.boundaries(last);
        assert(boundaries[0] == 0);
        law_slices_make_up_the_text(last, boundaries);
        lemma_kept_add(parts_of(model, earlier), slices(last, boundaries));
        lemma_concat_add(parts_of(model, earlier), slices(last, boundaries));
    }
}

/// Of parts of which one is kept, it is all that they hold; of parts of which two are kept, the
/// first is a proper prefix of what they hold. Either is trimmed.
proof fn lemma_first_kept(parts: Seq<Seq<char>>)
    ensures
        kept(parts).len() == 0 ==> concat(parts).len() == 0,
        kept(parts).len() == 1 ==> concat(parts).len() > 0 && kept(parts)[0] == trim(
            concat(parts),
        ),
        kept(parts).len() == 2 ==> exists|n: int|
            0 < n < concat(parts).len() && kept(parts)[0] == trim(#[trigger] concat(parts).take(n)),
    decreases parts.len(),
{
    if parts.len() > 0 {
        let earlier = parts.drop_last();
        let last = parts.last();
        lemma_first_kept(earlier);
        let n = concat(earlier).len() as int;
        assert(concat(parts).take(n) =~= concat(earlier));
        if last.len() == 0 {
            assert(concat(parts) =~= concat(earlier));
        } else if kept(parts).len() == 1 {
            assert(concat(parts) =~= last);
        }
    }
}

/// Trimming the end leaves a prefix, and something where the start is no space.
proof fn lemma_trim_end_prefix(s: Seq<char>)
    ensures
        trim_end(s).is_prefix_of(s),
        s.len() > 0 && s[0] != ' ' ==> trim_end(s).len() > 0,
    decreases s.len(),
{
    if s.len() > 0 && s.last() == ' ' {
        lemma_trim_end_prefix(s.drop_last());
    }
}

/// A text with at most one place with empty lines has no sentences exactly when it is empty.
pub proof fn law_only_an_empty_text_has_no_sentences(model: LanguageModel, text: Seq<char>)
    requires
        byte_len(text) <= usize::MAX,
        model.text_defined(text),
        separators(text).len() <= 1,
    ensures
        model.sentences(text).len() == 0 <==> text.len() == 0,
{
    law_paragraphs_make_up_the_text(text);
    lemma_parts_of(model, paragraphs(text));
    lemma_first_kept(parts_of(model, paragraphs(text)));
    if text.len() == 0 {
        law_text_without_empty_lines_is_one_paragraph(text);
    }
}

/// Where two sentences are found, the first of them is handed out and is not empty, and it and what
/// is kept make up the collected text again, if that is not empty, does not start with a space, and
/// has at most one place with empty lines.
pub proof fn law_handing_out_one_sentence_loses_nothing(model: LanguageModel, buffer: Seq<char>)
    requires
        byte_len(probe(buffer)) <= usize::MAX,
        model.text_defined(probe(buffer)),
        model.sentences(probe(buffer)).len() == 2,
        buffer.len() > 0,
        buffer[0] != ' ',
        separators(buffer).len() <= 1,
    ensures
        model.buffer_defined(buffer),
        model.complete_part(buffer) is Some,
        model.complete_part(buffer)->0 == model.sentences(probe(buffer))[0],
        model.complete_part(buffer)->0.len() > 0,
        model.complete_part(buffer)->0 + model.open_part(buffer) == buffer,
{
    let text = probe(buffer);
    let sentences = model.sentences(text);
    let parts = parts_of(model, paragraphs(text));
    reveal_strlit(" 1");
    crate::pattern::lemma_runs_of_prefix(buffer, " 1"@, seq!['\n'], 2, 0);
    law_paragraphs_make_up_the_text(text);
    lemma_parts_of(model, paragraphs(text));
    lemma_first_kept(parts);
    let n = choose|n: int|
        0 < n < text.len() && sentences[0] == trim(#[trigger] text.take(n));
    let front = text.take(n);
    assert(front[0] == buffer[0]);
    assert(sentences[0] == trim_end(front));
    let complete = sentences[0];
    if n == buffer.len() + 1 {
        assert(front.last() == ' ');
        assert(front.drop_last() =~= buffer);
        lemma_trim_end_prefix(buffer);
    } else {
        assert(front =~= buffer.take(n));
        lemma_trim_end_prefix(front);
    }
    assert(complete.is_prefix_of(buffer));
    assert(sentences.drop_last() =~= Seq::<Seq<char>>::empty().push(complete));
    lemma_concat_push(Seq::empty(), complete);
    assert(Seq::<char>::empty() + complete =~= complete);
    assert(model.complete_part(buffer) == Some(complete));
    assert(complete + buffer.skip(complete.len() as int) =~= buffer);
    crate::text::lemma_prefix_boundary(complete, buffer.skip(complete.len() as int));
    law_accepting_keeps_the_text(model, buffer);
}

/// Where at most one sentence is found nothing is handed out, and everything is kept.
pub proof fn law_one_sentence_is_not_complete(model: LanguageModel, buffer: Seq<char>)
    requires
        model.sentences(probe(buffer)).len() <= 1,
    ensures
        model.complete_part(buffer) is None,
        model.open_part(buffer) == buffer,
{
}

/// With the languages that this library brings along, text without any of the characters that can
/// end a sentence, and without empty lines, is collected and not handed out.
pub proof fn law_text_without_terminators_is_not_complete(code: Seq<char>, buffer: Seq<char>)
    requires
        forall|k: int|
            0 <= k < buffer.len() ==> !GLOBAL_SENTENCE_TERMINATORS@.contains(#[trigger] buffer[k]),
        has_no_empty_lines(buffer),
        builtin_tables().rules(code).skippable(probe(buffer)) is Some,
    ensures
        builtin_tables().rules(code).buffer_defined(buffer),
        builtin_tables().rules(code).complete_part(buffer) is None,
        builtin_tables().rules(code).open_part(buffer) == buffer,
{
    let text = probe(buffer);
    reveal_strlit(" 1");
    crate::pattern::lemma_terminators_are_plain();
    assert forall|k: int| 0 <= k < text.len() implies !GLOBAL_SENTENCE_TERMINATORS@.contains(
        #[trigger] text[k],
    ) by {
        if k < buffer.len() {
            assert(text[k] == buffer[k]);
        } else {
            assert(text[k] == ' ' || text[k] == '1');
        }
    }
    assert forall|k: int| 0 <= k < text.len() - 1 implies !((#[trigger] text[k]) == '\n' && text[k
        + 1] == '\n') by {
        if k < buffer.len() - 1 {
            assert(text[k] == buffer[k]);
            assert(text[k + 1] == buffer[k + 1]);
        } else {
            assert(text[k + 1] == ' ' || text[k + 1] == '1');
        }
    }
    law_builtin_text_without_terminators_is_one_sentence(code, text);
}

} // verus!
