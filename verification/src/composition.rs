//! How what is done to a part of a text relates to what is done to the whole.
//!
//! The laws here relate results to each other: a split to the split of what remains, the sentences
//! of paragraphs to those of each, what is handed out to what is kept, and a last word to whether
//! the sentence ends with it.

use vstd::prelude::*;
use vstd::utf8::encode_utf8;

use crate::behaviour::{first_after, none_after};
use crate::constants::{CONSECUTIVE_NEWLINES, QUOTED, WORD_SEPARATORS};
use crate::graphemes::grapheme_starts;
use crate::incremental::completed;
use crate::language::Language;
use crate::languages::{builtin_tables, DataLanguage};
use crate::laws::{separators, without_spaces};
use crate::pattern::{pattern_spans, quote_pattern, Span};
use crate::rules::{listed_abbreviation, listed_exclamation, lists_any, normalized, LanguageModel};
use crate::split::{consumed, cuts_fit, split_defined, split_pieces, str_views};
use crate::text::{at_boundary, byte_len, byte_slice, concat, lowercase, uppercase};

verus! {

/// The byte lengths of two strings add up, and a character takes one to four bytes by its code.
pub proof fn law_byte_lengths(a: Seq<char>, b: Seq<char>, c: char)
    ensures
        byte_len(a + b) == byte_len(a) + byte_len(b),
        byte_len(seq![c]) == if (c as u32) < 0x80 {
            1nat
        } else if (c as u32) < 0x800 {
            2
        } else if (c as u32) < 0x10000 {
            3
        } else {
            4
        },
{
    crate::text::lemma_encode_concat(a, b);
    let one = seq![c];
    vstd::utf8::char_is_scalar(c);
    assert(one.drop_first() =~= Seq::<char>::empty());
    assert(encode_utf8(one.drop_first()) =~= Seq::<u8>::empty());
    assert(encode_utf8(one) =~= vstd::utf8::encode_scalar(c as u32));
}

/// The slice between the lengths of two prefixes is what stands between their ends.
pub proof fn law_slices_are_parts(a: Seq<char>, b: Seq<char>, c: Seq<char>)
    ensures
        byte_slice(a + b + c, byte_len(a) as int, (byte_len(a) + byte_len(b)) as int) == b,
        at_boundary(a + b + c, byte_len(a) as int),
{
    crate::text::lemma_encode_concat(a, b);
    crate::text::lemma_prefix_slice(a, b, c);
    assert(a + (b + c) =~= a + b + c);
    crate::text::lemma_prefix_boundary(a, b + c);
}

/// A boundary is the length of a prefix.
pub proof fn law_boundaries_end_prefixes(s: Seq<char>, i: int) -> (prefix: Seq<char>)
    requires
        at_boundary(s, i),
    ensures
        prefix.is_prefix_of(s),
        byte_len(prefix) == i,
{
    let len = byte_len(s) as int;
    crate::text::lemma_ends(s);
    crate::text::lemma_slice_bytes(s, 0, i);
    crate::text::lemma_slice_concat(s, 0, i, len);
    crate::text::lemma_slice_all(s);
    let prefix = byte_slice(s, 0, i);
    assert(prefix + byte_slice(s, i, len) == s);
    assert(s.take(prefix.len() as int) =~= prefix);
    prefix
}

/// Strings one after another: those of two lists are those of the one followed by those of the
/// other, and one string alone is itself.
pub proof fn law_concatenation(a: Seq<Seq<char>>, b: Seq<Seq<char>>, s: Seq<char>)
    ensures
        concat(a + b) == concat(a) + concat(b),
        concat(seq![s]) == s,
        concat(Seq::empty()) == Seq::<char>::empty(),
    decreases b.len(),
{
    let one = seq![s];
    assert(one.drop_last() =~= Seq::<Seq<char>>::empty());
    assert(concat(one.drop_last()) =~= Seq::<char>::empty());
    assert(concat(one) =~= s);
    if b.len() == 0 {
        assert(a + b =~= a);
        assert(concat(a) + concat(b) =~= concat(a));
    } else {
        assert((a + b).drop_last() =~= a + b.drop_last());
        law_concatenation(a, b.drop_last(), s);
        assert(concat(a + b) =~= concat(a) + concat(b));
    }
}

proof fn lemma_consumed_shift(spans: Seq<Span>, k: int)
    requires
        0 <= k < spans.len(),
    ensures
        consumed(spans, k + 1) == spans[0].1 + consumed(spans.drop_first(), k),
    decreases k,
{
    if k == 0 {
        assert(consumed(spans, 0) == 0);
    } else {
        lemma_consumed_shift(spans, k - 1);
        assert(spans.drop_first()[k - 1] == spans[k]);
    }
}

proof fn lemma_rest_boundary(text: Seq<char>, a: int, x: int)
    requires
        at_boundary(text, a),
        x >= 0,
    ensures
        at_boundary(byte_slice(text, a, byte_len(text) as int), x) <==> at_boundary(text, a + x),
        byte_len(byte_slice(text, a, byte_len(text) as int)) == byte_len(text) - a,
{
    let len = byte_len(text) as int;
    crate::text::lemma_ends(text);
    crate::text::lemma_slice_bytes(text, a, len);
    if x <= len - a {
        crate::text::lemma_slice_boundary(text, a, len, x);
    }
}

/// A split at no match hands out the text, or nothing if that is empty, and always fits.
pub proof fn law_split_at_no_match(text: Seq<char>)
    ensures
        split_defined(text, Seq::empty()),
        split_pieces(text, Seq::empty()) == if text.len() == 0 {
            Seq::<Seq<char>>::empty()
        } else {
            seq![text]
        },
{
    let pieces = split_pieces(text, Seq::empty());
    crate::text::lemma_byte_len_zero(text);
    crate::text::lemma_slice_all(text);
    assert(pieces =~= if text.len() == 0 {
        Seq::<Seq<char>>::empty()
    } else {
        seq![text]
    });
}

/// A split goes on with what remains behind its first match, at the other matches: it fits exactly
/// when that does, its first piece is what stands in front of the first match, and the others are
/// those of what remains, except that the text of the last match is taken from the whole.
pub proof fn law_split_goes_on_with_what_remains(text: Seq<char>, spans: Seq<Span>)
    requires
        spans.len() > 0,
        spans[0].0 <= spans[0].1,
        at_boundary(text, spans[0].0 as int),
        at_boundary(text, spans[0].1 as int),
    ensures
        ({
            let rest = byte_slice(text, spans[0].1 as int, byte_len(text) as int);
            split_defined(text, spans) <==> split_defined(rest, spans.drop_first())
        }),
        split_defined(text, spans) ==> {
            let n = spans.len() as int;
            let rest = byte_slice(text, spans[0].1 as int, byte_len(text) as int);
            let pieces = split_pieces(text, spans);
            let others = split_pieces(rest, spans.drop_first());
            let separator = byte_slice(text, spans[n - 1].0 as int, spans[n - 1].1 as int);
            &&& pieces[0] == byte_slice(text, 0, spans[0].0 as int)
            &&& pieces[n] == separator
            &&& n == 1 ==> pieces == seq![pieces[0], separator] + others
            &&& n > 1 ==> pieces.len() == others.len() + 1 && forall|k: int|
                1 <= k < pieces.len() && k != n ==> #[trigger] pieces[k] == others[k - 1]
        },
{
    let n = spans.len() as int;
    let len = byte_len(text) as int;
    let cut = spans[0].1 as int;
    let rest = byte_slice(text, cut, len);
    let later = spans.drop_first();
    crate::text::lemma_ends(text);
    crate::text::lemma_slice_bytes(text, cut, len);
    assert(consumed(spans, 0) == 0);
    lemma_consumed_shift(spans, 0);
    assert(consumed(later, 0) == 0);
    assert forall|j: int| 0 <= j < later.len() implies (#[trigger] cuts_fit(rest, later, j)
        <==> cuts_fit(text, spans, j + 1)) by {
        lemma_consumed_shift(spans, j);
        lemma_consumed_shift(spans, j + 1);
        lemma_consumed_positive(later, j);
        lemma_consumed_positive(later, j + 1);
        lemma_rest_boundary(text, cut, consumed(later, j) + later[j].0);
        lemma_rest_boundary(text, cut, consumed(later, j + 1));
    }
    assert(cuts_fit(text, spans, 0));
    if split_defined(rest, later) {
        assert forall|j: int| 0 <= j < spans.len() implies #[trigger] cuts_fit(
            text,
            spans,
            j,
        ) by {
            if j > 0 {
                assert(cuts_fit(rest, later, j - 1));
            }
        }
    }
    if split_defined(text, spans) {
        assert forall|j: int| 0 <= j < later.len() implies #[trigger] cuts_fit(
            rest,
            later,
            j,
        ) by {
            assert(cuts_fit(text, spans, j + 1));
        }
        let pieces = split_pieces(text, spans);
        let others = split_pieces(rest, later);
        let end = consumed(spans, n);
        lemma_consumed_shift(spans, n - 1);
        lemma_consumed_positive(later, n - 1);
        assert(cuts_fit(text, spans, n - 1));
        crate::text::lemma_slice_of_slice(text, cut, len, end - cut, len - cut);
        assert forall|k: int| 1 <= k < n implies #[trigger] pieces[k] == others[k - 1] by {
            lemma_consumed_shift(spans, k - 1);
            lemma_consumed_positive(later, k - 1);
            assert(cuts_fit(text, spans, k));
            crate::text::lemma_slice_of_slice(
                text,
                cut,
                len,
                consumed(later, k - 1),
                consumed(later, k - 1) + later[k - 1].0,
            );
        }
        if n == 1 {
            assert(pieces =~= seq![pieces[0], pieces[1]] + others);
        }
    }
}

proof fn lemma_consumed_positive(spans: Seq<Span>, k: int)
    requires
        k <= spans.len(),
    ensures
        consumed(spans, k) >= 0,
    decreases k,
{
    if k > 0 {
        lemma_consumed_positive(spans, k - 1);
    }
}

/// The sentences of two lists of paragraphs are those of the one followed by those of the other,
/// and the sentences of one paragraph alone are its own.
pub proof fn law_paragraphs_add_up(
    model: LanguageModel,
    a: Seq<Seq<char>>,
    b: Seq<Seq<char>>,
    paragraph: Seq<char>,
)
    ensures
        model.sentences_of(a + b) == model.sentences_of(a) + model.sentences_of(b),
        model.sentences_of(seq![paragraph]) == model.paragraph_sentences(paragraph),
        model.sentences_of(Seq::empty()) == Seq::<Seq<char>>::empty(),
    decreases b.len(),
{
    let one = seq![paragraph];
    assert(one.drop_last() =~= Seq::<Seq<char>>::empty());
    assert(model.sentences_of(one.drop_last()) =~= Seq::<Seq<char>>::empty());
    assert(model.sentences_of(one) =~= model.paragraph_sentences(paragraph));
    if b.len() == 0 {
        assert(a + b =~= a);
        assert(model.sentences_of(a) + model.sentences_of(b) =~= model.sentences_of(a));
    } else {
        assert((a + b).drop_last() =~= a + b.drop_last());
        law_paragraphs_add_up(model, a, b.drop_last(), paragraph);
        assert(model.sentences_of(a + b) =~= model.sentences_of(a) + model.sentences_of(b));
    }
}

/// The sentences of a text are those of the pieces that it falls into at its empty lines, wherever
/// the list of pieces is divided; it has sentences exactly when the split fits and each piece can be
/// cut.
pub proof fn law_text_falls_into_paragraphs(model: LanguageModel, text: Seq<char>, k: int)
    ensures
        ({
            let spans = pattern_spans(CONSECUTIVE_NEWLINES@, text);
            let pieces = split_pieces(text, spans);
            &&& model.text_defined(text) <==> split_defined(text, spans) && forall|j: int|
                0 <= j < pieces.len() ==> model.paragraph_defined(#[trigger] pieces[j])
            &&& 0 <= k <= pieces.len() ==> model.sentences(text) == model.sentences_of(
                pieces.take(k),
            ) + model.sentences_of(pieces.skip(k))
        }),
{
    let pieces = split_pieces(text, pattern_spans(CONSECUTIVE_NEWLINES@, text));
    if 0 <= k <= pieces.len() {
        assert(pieces.take(k) + pieces.skip(k) =~= pieces);
        law_paragraphs_add_up(model, pieces.take(k), pieces.skip(k), Seq::empty());
    }
}

/// All sentences but the last are handed out: followed by the last they are all of them, one after
/// another. There is something to hand out exactly when there are two sentences or more.
pub proof fn law_all_but_the_last_are_complete(segments: Seq<Seq<char>>)
    ensures
        completed(segments) is Some <==> segments.len() >= 2,
        completed(segments) is Some ==> completed(segments)->0 + segments.last() == concat(
            segments,
        ),
{
    if segments.len() >= 2 {
        law_concatenation(segments.drop_last(), seq![segments.last()], segments.last());
        assert(segments.drop_last() + seq![segments.last()] =~= segments);
    }
}

/// What is collected is cut with a space and a digit behind it. All sentences of that but the last
/// are handed out, once and in order, and with the last they hold all of it but spaces, if there is
/// at most one place with empty lines.
pub proof fn law_every_complete_sentence_is_handed_out(model: LanguageModel, buffer: Seq<char>)
    ensures
        ({
            let text = buffer + seq![' ', '1'];
            let sentences = model.sentences(text);
            &&& model.complete_part(buffer) is Some <==> sentences.len() >= 2
            &&& model.complete_part(buffer) matches Some(complete) ==> {
                &&& complete + sentences.last() == concat(sentences)
                &&& model.text_defined(text) && separators(buffer).len() <= 1 && byte_len(text)
                    <= usize::MAX ==> without_spaces(complete + sentences.last())
                    == without_spaces(text)
            }
        }),
{
    let text = buffer + seq![' ', '1'];
    let sentences = model.sentences(text);
    reveal_strlit(" 1");
    assert(" 1"@ =~= seq![' ', '1']);
    law_all_but_the_last_are_complete(sentences);
    if model.text_defined(text) && separators(buffer).len() <= 1 && byte_len(text) <= usize::MAX {
        crate::pattern::lemma_runs_of_prefix(buffer, " 1"@, seq!['\n'], 2, 0);
        crate::laws::law_sentences_keep_all_but_spaces(model, text);
    }
}

/// Text can be accepted exactly when what is collected, with a space and a digit behind it, can be
/// cut into sentences, and as many bytes as are handed out end between characters of it.
pub proof fn law_when_text_can_be_accepted(model: LanguageModel, buffer: Seq<char>)
    ensures
        model.buffer_defined(buffer) <==> {
            let text = buffer + seq![' ', '1'];
            let sentences = model.sentences(text);
            &&& model.text_defined(text)
            &&& sentences.len() >= 2 ==> at_boundary(
                buffer,
                byte_len(concat(sentences)) - byte_len(sentences.last()),
            )
        },
{
    let text = buffer + seq![' ', '1'];
    let sentences = model.sentences(text);
    reveal_strlit(" 1");
    assert(" 1"@ =~= seq![' ', '1']);
    law_all_but_the_last_are_complete(sentences);
    if sentences.len() >= 2 {
        crate::text::lemma_encode_concat(completed(sentences)->0, sentences.last());
    }
}

/// What is kept is how the collected text ends: all of it where nothing is handed out, or else what
/// is left when as many bytes as are handed out are taken off its start.
pub proof fn law_what_is_kept_ends_the_text(model: LanguageModel, buffer: Seq<char>) -> (front: Seq<
    char,
>)
    requires
        model.buffer_defined(buffer),
    ensures
        front + model.open_part(buffer) == buffer,
        byte_len(front) == match model.complete_part(buffer) {
            Some(complete) => byte_len(complete),
            None => 0,
        },
{
    match model.complete_part(buffer) {
        None => {
            crate::text::lemma_byte_len_zero(Seq::<char>::empty());
            assert(Seq::<char>::empty() + buffer =~= buffer);
            Seq::empty()
        },
        Some(complete) => {
            let n = byte_len(complete) as int;
            let len = byte_len(buffer) as int;
            crate::text::lemma_ends(buffer);
            crate::text::lemma_slice_bytes(buffer, 0, n);
            crate::text::lemma_slice_concat(buffer, 0, n, len);
            crate::text::lemma_slice_all(buffer);
            byte_slice(buffer, 0, n)
        },
    }
}

/// Whether the first cluster of `word` ends at `n`: where the second starts, or at the end of the
/// word if there is none.
pub open spec fn first_cluster_is(word: Seq<char>, n: int) -> bool {
    let offsets = grapheme_starts(word);
    ||| exists|i: int| #[trigger] first_after(offsets, 0, i) && n == offsets[i]
    ||| none_after(offsets, 0) && n == byte_len(word)
}

/// A word in normal form has its first cluster in lower case and the rest as it is.
pub proof fn law_normal_form(word: Seq<char>, n: int)
    requires
        first_cluster_is(word, n),
    ensures
        normalized(word) == lowercase(byte_slice(word, 0, n)) + byte_slice(
            word,
            n,
            byte_len(word) as int,
        ),
{
    crate::behaviour::law_next_is_first_after(grapheme_starts(word), 0);
}

/// Every word has a first cluster, where clusters are concerned.
proof fn lemma_some_first_cluster(word: Seq<char>) -> (n: int)
    ensures
        first_cluster_is(word, n),
{
    let offsets = grapheme_starts(word);
    crate::behaviour::law_next_is_first_after(offsets, 0);
    if none_after(offsets, 0) {
        byte_len(word) as int
    } else {
        let i = choose|i: int| #[trigger] first_after(offsets, 0, i);
        offsets[i] as int
    }
}

/// Whether `word` is among `words` as it is, in lower case, in upper case, or with its first cluster
/// in lower case.
pub open spec fn is_among(words: Seq<Seq<char>>, word: Seq<char>) -> bool {
    ||| words.contains(word)
    ||| words.contains(lowercase(word))
    ||| words.contains(uppercase(word))
    ||| exists|n: int| #[trigger]
        first_cluster_is(word, n) && words.contains(
            lowercase(byte_slice(word, 0, n)) + byte_slice(word, n, byte_len(word) as int),
        )
}

/// A word is listed as an abbreviation exactly when it is not empty, the mark of abbreviations
/// follows it, and it is among the abbreviations in one of its forms; as a word with an exclamation
/// mark exactly when it is in the list with one.
pub proof fn law_listed_words(
    word: Seq<char>,
    mark: Seq<char>,
    words: Seq<Seq<char>>,
    separator: Seq<char>,
)
    ensures
        listed_abbreviation(Some(word), mark, words, separator) <==> separator == mark && word.len()
            > 0 && is_among(words, word),
        !listed_abbreviation(None, mark, words, separator),
        listed_exclamation(Some(word), words) <==> words.contains(word.push('!')),
        !listed_exclamation(None, words),
        forall|a: Seq<char>, b: Seq<char>, c: Seq<char>| #[trigger]
            lists_any(words, word, a, b, c) <==> (words.contains(word) || words.contains(a)
                || words.contains(b) || words.contains(c)),
{
    reveal_strlit("!");
    assert(word + "!"@ =~= word.push('!'));
    let n = lemma_some_first_cluster(word);
    law_normal_form(word, n);
    if is_among(words, word) {
        if !(words.contains(word) || words.contains(lowercase(word)) || words.contains(
            uppercase(word),
        )) {
            let k = choose|k: int| #[trigger]
                first_cluster_is(word, k) && words.contains(
                    lowercase(byte_slice(word, 0, k)) + byte_slice(word, k, byte_len(word) as int),
                );
            law_normal_form(word, k);
        }
    }
}

/// Whether `c` is one of the ten ASCII digits or one of the 26 lower-case ASCII letters.
pub open spec fn is_digit_or_lower(c: char) -> bool {
    0x30 <= c as int <= 0x39 || 0x61 <= c as int <= 0x7a
}

/// By the usual rules a terminator behind a text whose last word is `word` ends no sentence exactly
/// when one of the ten digits or a lower-case letter follows it at once, when the word is an
/// abbreviation that the terminator closes, or when the word takes an exclamation mark.
pub proof fn law_what_the_usual_rules_suppress(
    model: LanguageModel,
    before: Seq<char>,
    word: Seq<char>,
    tail: Seq<char>,
    separator: Seq<char>,
)
    requires
        model.is_usual(),
        byte_len(before + word) <= usize::MAX,
        before.len() > 0 ==> WORD_SEPARATORS@.contains(before.last()),
        forall|k: int| 0 <= k < word.len() ==> !WORD_SEPARATORS@.contains(#[trigger] word[k]),
    ensures
        (model.last_word)(before + word) == Some(word),
        (model.continuation)(tail) <==> tail.len() > 0 && is_digit_or_lower(tail[0]),
        (model.abbreviation)(before + word, tail, separator) <==> separator
            == model.abbreviation_char && word.len() > 0 && is_among(model.abbreviations, word),
        (model.exclamation)(before + word, tail) <==> model.exclamation_words.contains(
            word.push('!'),
        ),
        model.suppressed(before + word, tail, separator) <==> (model.continuation)(tail) || (
        model.abbreviation)(before + word, tail, separator) || (model.exclamation)(
            before + word,
            tail,
        ),
{
    let head = before + word;
    let start = before.len() as int;
    assert forall|k: int| start <= k < head.len() implies !WORD_SEPARATORS@.contains(
        #[trigger] head[k],
    ) by {
        assert(head[k] == word[k - start]);
    }
    if start > 0 {
        assert(head[start - 1] == before.last());
    }
    crate::laws::law_last_word_follows_the_last_separator(head, start);
    assert(head.skip(start) =~= word);
    law_listed_words(word, model.abbreviation_char, model.abbreviations, separator);
    law_listed_words(word, model.abbreviation_char, model.exclamation_words, separator);
}

/// By the usual rules a digit or a lower-case letter right behind a terminator suppresses it,
/// whatever stands before it.
pub proof fn law_digits_and_lower_case_go_on(
    model: LanguageModel,
    head: Seq<char>,
    tail: Seq<char>,
    separator: Seq<char>,
)
    requires
        model.is_usual(),
        tail.len() > 0,
        is_digit_or_lower(tail[0]),
    ensures
        model.suppressed(head, tail, separator),
{
}

/// A language that is given by its words and patterns follows the usual rules with these words and
/// patterns.
pub proof fn law_data_languages_are_usual(language: DataLanguage)
    ensures
        language.model().is_usual(),
        language.model().code == language.code@,
        language.model().quote_pairs == language.quote_pairs@,
        language.model().numbered_reference == language.numbered_reference@,
        language.model().sentence_break == language.sentence_break@,
        language.model().punctuation_between_quotes == language.punctuation_between_quotes,
        language.model().abbreviation_char == language.data.abbreviation_char@,
        language.model().abbreviations == language.data.abbreviations.deep_view(),
        language.model().exclamation_words == language.data.exclamation_words.deep_view(),
{
}

/// The languages that this library brings along follow the usual rules, whatever the code.
pub proof fn law_builtin_languages_are_usual(code: Seq<char>)
    ensures
        builtin_tables().rules(code).is_usual(),
        !builtin_tables().rules(code).punctuation_between_quotes,
{
    crate::languages::law_every_code_is_served(code);
}

/// The strings of a list of slices are those of each, in order.
pub proof fn law_views_of_slices(pieces: Seq<&str>)
    ensures
        str_views(pieces).len() == pieces.len(),
        forall|i: int|
            0 <= i < pieces.len() ==> #[trigger] str_views(pieces)[i] == pieces[i]@,
{
}

/// How long the quotations of the first `n` of `pairs` are as patterns, together.
pub open spec fn quotation_len(pairs: Seq<(&str, &str)>, n: int) -> nat
    decreases n,
{
    if n <= 0 {
        0
    } else {
        quotation_len(pairs, n - 1) + pairs[n - 1].0@.len() + QUOTED@.len() + pairs[n - 1].1@.len()
    }
}

/// The pattern of quotations has an alternative for each pair of marks, and nothing else but bars
/// between them.
pub proof fn law_each_pair_of_marks_is_an_alternative(
    pairs: Seq<(&str, &str)>,
    n: int,
    i: int,
) -> (around: (Seq<char>, Seq<char>))
    requires
        0 <= i < n <= pairs.len(),
    ensures
        quote_pattern(pairs, n) == around.0 + (pairs[i].0@ + QUOTED@ + pairs[i].1@) + around.1,
        if i == 0 {
            around.0.len() == 0
        } else {
            around.0.len() > 0 && around.0.last() == '|'
        },
        if i == n - 1 {
            around.1.len() == 0
        } else {
            around.1.len() > 0 && around.1[0] == '|'
        },
        quote_pattern(pairs, n).len() == quotation_len(pairs, n) + n - 1,
    decreases n,
{
    reveal_strlit("|");
    let quotation = pairs[n - 1].0@ + QUOTED@ + pairs[n - 1].1@;
    let whole = quote_pattern(pairs, n);
    if n > 1 {
        let shorter = quote_pattern(pairs, n - 1);
        assert(whole == shorter + "|"@ + quotation);
        if i == n - 1 {
            let earlier = law_each_pair_of_marks_is_an_alternative(pairs, n - 1, 0);
            let front = shorter + "|"@;
            assert(whole =~= front + quotation + Seq::<char>::empty());
            (front, Seq::empty())
        } else {
            let earlier = law_each_pair_of_marks_is_an_alternative(pairs, n - 1, i);
            let behind = earlier.1 + "|"@ + quotation;
            assert(whole =~= earlier.0 + (pairs[i].0@ + QUOTED@ + pairs[i].1@) + behind);
            (earlier.0, behind)
        }
    } else {
        reveal_with_fuel(quotation_len, 2);
        assert(whole =~= Seq::<char>::empty() + quotation + Seq::<char>::empty());
        (Seq::empty(), Seq::empty())
    }
}

} // verus!
