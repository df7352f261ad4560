//! What a language brings to the segmentation of text, and the segmentation itself.

use std::collections::HashMap;

use vstd::prelude::*;

use crate::constants::{EMAIL, PARENS, WORD_SPLIT};
use crate::graphemes::{cluster_table, cluster_views, cuts, grapheme_offsets, GraphemeCursor};
use crate::pattern::{
    consecutive_newlines, emails, fancy_find_iter, fancy_spans, is_shared_pattern, none_empty,
    on_one_line, pattern_spans, spans_in, word_separators, Pattern, Span,
};
use crate::rules::{
    admitted, continues, decided, first_around, in_order, inside, kept, last_word,
    listed_abbreviation, listed_exclamation, lists_any, normalized, or_next, paragraphs, placed,
    slice_end, slices, LanguageModel,
};
use crate::split::str_views;
use crate::text::{
    at_boundary, byte_len, contains_word, is_boundary, slice, str_len, to_lowercase, to_uppercase,
    trim, trim_spaces,
};

verus! {

/// Whether `text` starts with a lower-case ASCII letter or an ASCII digit.
pub fn starts_lower_or_digit(text: &str) -> (found: bool)
    ensures
        found == continues(text@),
        found <==> text@.len() > 0 && (0x30 <= text@[0] as int <= 0x39 || 0x61 <= text@[0] as int
            <= 0x7a),
{
    match text.chars().next() {
        Some(c) => ('a' <= c && c <= 'z') || ('0' <= c && c <= '9'),
        None => false,
    }
}

/// Whether one of the four forms of a word is among `words`.
pub fn contains_any_form(
    words: &Vec<String>,
    word: &str,
    normal: &str,
    lower: &str,
    upper: &str,
) -> (found: bool)
    ensures
        found == lists_any(words.deep_view(), word@, normal@, lower@, upper@),
{
    contains_word(words, word) || contains_word(words, normal) || contains_word(words, lower)
        || contains_word(words, upper)
}

/// `word` with its first cluster in lower case.
pub fn normalize(word: &str) -> (normal: String)
    requires
        word@.len() > 0,
    ensures
        normal@ == normalized(word@),
{
    let offsets = grapheme_offsets(word);
    let len = str_len(word);
    proof {
        crate::text::lemma_ends(word@);
        crate::graphemes::lemma_next_after(offsets@, 0);
    }
    let cursor = GraphemeCursor::new(offsets);
    let end = match cursor.next_grapheme(0) {
        Some(second) => second,
        None => len,
    };
    let mut normal = to_lowercase(slice(word, 0, end));
    normal.append(slice(word, end, len));
    normal
}

/// The characters of a word, if there is one.
pub open spec fn word_view(word: Option<&str>) -> Option<Seq<char>> {
    match word {
        Some(word) => Some(word@),
        None => None,
    }
}

/// The last word of `text`: the last piece between what separates words.
pub fn usual_lastword<'a>(text: &'a str) -> (word: Option<&'a str>)
    ensures
        word is Some,
        word->0@ == last_word(text@),
{
    let pieces = word_separators().split(text);
    let ghost spans = pattern_spans(WORD_SPLIT@, text@);
    assert(str_views(pieces@).len() == spans.len() + 1);
    assert(spans.take(spans.len() as int) =~= spans);
    assert(str_views(pieces@).last() == last_word(text@));
    Some(pieces[pieces.len() - 1])
}

/// Whether the last word of a text is among the abbreviations `words`, in one of its four forms, and
/// `separator` is the mark that closes an abbreviation.
pub fn is_listed_abbreviation(
    last_word: Option<&str>,
    mark: &str,
    words: &Vec<String>,
    separator: &str,
) -> (answer: bool)
    ensures
        answer == listed_abbreviation(word_view(last_word), mark@, words.deep_view(), separator@),
{
    if mark.to_string() != separator.to_string() {
        return false;
    }
    let last_word = match last_word {
        Some(word) => word,
        None => return false,
    };
    if last_word.is_empty() {
        return false;
    }
    let normal = normalize(last_word);
    let lower = to_lowercase(last_word);
    let upper = to_uppercase(last_word);
    contains_any_form(words, last_word, normal.as_str(), lower.as_str(), upper.as_str())
}

/// Whether the last word of a text, followed by an exclamation mark, is among `words`.
pub fn is_listed_exclamation(last_word: Option<&str>, words: &Vec<String>) -> (answer: bool)
    ensures
        answer == listed_exclamation(word_view(last_word), words.deep_view()),
{
    let last_word = match last_word {
        Some(word) => word,
        None => return false,
    };
    let mut exclamation = last_word.to_string();
    exclamation.append("!");
    contains_word(words, exclamation.as_str())
}

/// Where the first cluster after `pos` starts, or `pos` itself.
pub fn next_or_here(cursor: &GraphemeCursor, pos: usize) -> (next: usize)
    ensures
        next == or_next(cursor@, pos as int),
{
    match cursor.next_grapheme(pos) {
        Some(next) => next,
        None => pos,
    }
}

/// The same boundary, counted without bound.
pub open spec fn boundary_view(found: Option<(usize, bool)>) -> Option<(int, bool)> {
    match found {
        Some((b, behind_reference)) => Some((b as int, behind_reference)),
        None => None,
    }
}

/// The boundary that the terminator `mtch` makes.
pub fn decide_boundary(
    cursor: &GraphemeCursor,
    mtch: Span,
    reference: Option<Span>,
    suppressed: bool,
) -> (found: Option<(usize, bool)>)
    requires
        reference is Some ==> mtch.1 + (reference->0).1 <= usize::MAX,
    ensures
        boundary_view(found) == decided(cursor@, mtch, reference, suppressed),
{
    match reference {
        Some(r) => Some((next_or_here(cursor, mtch.1 + r.1), true)),
        None => if suppressed {
            None
        } else {
            Some((mtch.1, false))
        },
    }
}

/// Whether `range` lies in `text`, from one character boundary to another.
pub open spec fn range_in(text: Seq<char>, range: Span) -> bool {
    &&& range.0 <= range.1
    &&& at_boundary(text, range.0 as int)
    &&& at_boundary(text, range.1 as int)
}

/// Whether each of `ranges` lies in `text`, from one character boundary to another.
pub open spec fn ranges_in(text: Seq<char>, ranges: Seq<Span>) -> bool {
    forall|k: int| 0 <= k < ranges.len() ==> range_in(text, #[trigger] ranges[k])
}

/// The ranges of `quotes`, then those of `mails`, then those of `parens`.
pub fn chain_ranges(quotes: Vec<Span>, mails: Vec<Span>, parens: Vec<Span>) -> (ranges: Vec<Span>)
    ensures
        ranges@ == quotes@ + mails@ + parens@,
{
    let mut ranges = quotes;
    let mut mails = mails;
    let mut parens = parens;
    ranges.append(&mut mails);
    ranges.append(&mut parens);
    ranges
}

/// Where no range up to index `i` holds `b`, the search goes on from there.
proof fn lemma_first_around_skip(ranges: Seq<Span>, b: int, i: int)
    requires
        0 <= i <= ranges.len(),
        forall|j: int| 0 <= j < i ==> !inside(#[trigger] ranges[j], b),
    ensures
        first_around(ranges, b) == first_around(ranges.skip(i), b),
    decreases i,
{
    if i == 0 {
        assert(ranges.skip(0) =~= ranges);
    } else {
        lemma_first_around_skip(ranges, b, i - 1);
        assert(!inside(ranges[i - 1], b));
        assert(ranges.skip(i - 1).drop_first() =~= ranges.skip(i));
    }
}

/// Where the boundary is put, given the ranges that are not to be broken up.
pub fn place_boundary(
    ranges: &Vec<Span>,
    cursor: &GraphemeCursor,
    punctuation_between_quotes: bool,
    boundary: usize,
) -> (place: Option<usize>)
    ensures
        place is Some <==> placed(
            ranges@,
            cursor@,
            punctuation_between_quotes,
            boundary as int,
        ) is Some,
        place is Some ==> place->0 == placed(
            ranges@,
            cursor@,
            punctuation_between_quotes,
            boundary as int,
        )->0,
{
    for i in 0..ranges.len()
        invariant
            forall|j: int| 0 <= j < i ==> !inside(#[trigger] ranges@[j], boundary as int),
    {
        let (qstart, qend) = ranges[i];
        if boundary > qstart && boundary < qend {
            proof {
                lemma_first_around_skip(ranges@, boundary as int, i as int);
                assert(ranges@.skip(i as int)[0] == ranges@[i as int]);
            }
            if next_or_here(cursor, boundary) == qend && punctuation_between_quotes {
                return Some(qend);
            }
            return None;
        }
        assert(!inside(ranges@[i as int], boundary as int));
    }
    proof {
        lemma_first_around_skip(ranges@, boundary as int, ranges@.len() as int);
    }
    Some(boundary)
}

/// The offsets, counted without bound.
pub open spec fn as_ints(offsets: Seq<usize>) -> Seq<int> {
    offsets.map_values(|b: usize| b as int)
}

/// Adds to `boundaries` what comes of what was found for one terminator.
pub fn admit_boundary(
    boundaries: &mut Vec<usize>,
    ranges: &Vec<Span>,
    cursor: &GraphemeCursor,
    punctuation_between_quotes: bool,
    found: Option<(usize, bool)>,
)
    ensures
        as_ints(final(boundaries)@) == match admitted(
            ranges@,
            cursor@,
            punctuation_between_quotes,
            boundary_view(found),
        ) {
            Some(b) => as_ints(old(boundaries)@).push(b),
            None => as_ints(old(boundaries)@),
        },
{
    if let Some((boundary, is_num_ref)) = found {
        if is_num_ref {
            boundaries.push(boundary);
            assert(as_ints(boundaries@) =~= as_ints(old(boundaries)@).push(boundary as int));
        } else {
            match place_boundary(ranges, cursor, punctuation_between_quotes, boundary) {
                Some(place) => {
                    boundaries.push(place);
                    assert(as_ints(boundaries@) =~= as_ints(old(boundaries)@).push(place as int));
                },
                None => {},
            }
        }
    }
}

/// Whether `boundaries` are in order, and each lies between characters of `text`.
pub fn are_in_order(text: &str, boundaries: &Vec<usize>) -> (fits: bool)
    ensures
        fits == in_order(text@, as_ints(boundaries@)),
{
    let ghost ints = as_ints(boundaries@);
    for k in 0..boundaries.len()
        invariant
            ints == as_ints(boundaries@),
            forall|i: int| 0 <= i < k ==> at_boundary(text@, #[trigger] ints[i]),
            forall|i: int, j: int| 0 <= i < j < k ==> ints[i] <= ints[j],
    {
        let b = boundaries[k];
        assert(ints[k as int] == b);
        if !is_boundary(text, b) {
            return false;
        }
        if k > 0 && boundaries[k - 1] > b {
            assert(ints[k - 1] > ints[k as int]);
            return false;
        }
        assert(k > 0 ==> ints[k - 1] <= b);
    }
    true
}

/// The parts of `paragraph` between `boundaries` that are not empty, each without the spaces
/// around it.
pub fn slice_sentences(paragraph: &str, boundaries: &Vec<usize>) -> (sentences: Vec<String>)
    requires
        in_order(paragraph@, as_ints(boundaries@)),
    ensures
        sentences.deep_view() == kept(slices(paragraph@, as_ints(boundaries@))),
{
    let ghost ints = as_ints(boundaries@);
    let ghost parts = slices(paragraph@, ints);
    let len = str_len(paragraph);
    let mut sentences: Vec<String> = Vec::new();
    proof {
        crate::text::lemma_ends(paragraph@);
        assert(parts.take(0) =~= Seq::<Seq<char>>::empty());
        assert(sentences.deep_view() =~= Seq::<Seq<char>>::empty());
    }
    for k in 0..boundaries.len()
        invariant
            ints == as_ints(boundaries@),
            parts == slices(paragraph@, ints),
            len == byte_len(paragraph@),
            at_boundary(paragraph@, len as int),
            in_order(paragraph@, ints),
            sentences.deep_view() == kept(parts.take(k as int)),
    {
        let i = boundaries[k];
        let j = if k + 1 < boundaries.len() {
            boundaries[k + 1]
        } else {
            len
        };
        assert(ints[k as int] == i);
        assert(j == slice_end(paragraph@, ints, k as int));
        let sentence = slice(paragraph, i, j);
        assert(parts[k as int] == sentence@);
        assert(parts.take(k + 1).drop_last() =~= parts.take(k as int));
        let ghost before = sentences.deep_view();
        if !sentence.is_empty() {
            sentences.push(trim_spaces(sentence).to_string());
            assert(sentences.deep_view() =~= before.push(trim(sentence@)));
        }
    }
    assert(parts.take(parts.len() as int) =~= parts);
    sentences
}

/// A language, by which text is cut into sentences.
pub trait Language {
    /// What is particular to the language.
    spec fn model(&self) -> LanguageModel;

    /// The code of the language.
    fn language_code(&self) -> (code: &str)
        ensures
            code@ == self.model().code,
    ;

    /// The pattern of quotations.
    fn quote_pairs_regex(&self) -> (pattern: &Pattern)
        ensures
            pattern@ == self.model().quote_pairs,
    ;

    /// The pattern of references that follow a sentence.
    fn numbered_reference_regex(&self) -> (pattern: &Pattern)
        ensures
            pattern@ == self.model().numbered_reference,
    ;

    /// The pattern of what can end a sentence.
    fn sentence_break_regex(&self) -> (pattern: &Pattern)
        ensures
            pattern@ == self.model().sentence_break,
    ;

    /// Whether a sentence that ends right before a closing quotation mark ends after it instead.
    fn is_punctuation_between_quotes(&self) -> (answer: bool)
        ensures
            answer == self.model().punctuation_between_quotes,
    ;

    /// The mark that follows an abbreviation.
    fn abbreviation_char(&self) -> (mark: &str)
        ensures
            mark@ == self.model().abbreviation_char,
    ;

    /// The abbreviations, without that mark.
    fn abbreviations(&self) -> (words: &Vec<String>)
        ensures
            words.deep_view() == self.model().abbreviations,
    ;

    /// The words that end in an exclamation mark.
    fn exclamation_words(&self) -> (words: &Vec<String>)
        ensures
            words.deep_view() == self.model().exclamation_words,
    ;

    /// The last word of `text`, usually that of [`usual_lastword`].
    fn get_lastword<'a>(&self, text: &'a str) -> (word: Option<&'a str>)
        ensures
            word_view(word) == (self.model().last_word)(text@),
    ;

    /// Whether the sentence goes on in what follows a terminator, usually as
    /// [`starts_lower_or_digit`] says.
    fn continue_in_next_word(&self, text_after_boundary: &str) -> (answer: bool)
        ensures
            answer == (self.model().continuation)(text_after_boundary@),
    ;

    /// Whether `head` ends in an abbreviation that `separator` closes, usually as
    /// [`is_listed_abbreviation`] says of the last word.
    fn is_abbreviation(&self, head: &str, tail: &str, separator: &str) -> (answer: bool)
        ensures
            answer == (self.model().abbreviation)(head@, tail@, separator@),
    ;

    /// Whether `head` ends in a word that takes an exclamation mark, usually as
    /// [`is_listed_exclamation`] says of the last word.
    fn is_exclamation_word(&self, head: &str, tail: &str) -> (answer: bool)
        ensures
            answer == (self.model().exclamation)(head@, tail@),
    ;

    /// The boundary that the terminator `mtch` of `text` makes, and whether it stands behind a
    /// reference.
    fn find_boundary<'a>(
        &self,
        text: &'a str,
        grapheme_indices: &HashMap<usize, &str>,
        cursor: &GraphemeCursor,
        mtch: Span,
    ) -> (found: Option<(usize, bool)>)
        requires
            cuts(text@, cursor@),
            spans_in(text@, seq![mtch]),
            self.model().boundary_defined(
                text@,
                cluster_views(grapheme_indices@),
                cursor@,
                mtch,
            ),
        ensures
            boundary_view(found) == self.model().boundary(
                text@,
                cluster_views(grapheme_indices@),
                cursor@,
                mtch,
            ),
    {
        let (match_start, _) = mtch;
        let next_char_offset = match cursor.next_grapheme(match_start) {
            Some(next) => next,
            None => return None,
        };
        let len = str_len(text);
        proof {
            assert(seq![mtch][0] == mtch);
            crate::text::lemma_ends(text@);
        }
        let tail = slice(text, next_char_offset, len);
        let head = slice(text, 0, match_start);
        let reference = self.numbered_reference_regex().find(tail);
        let suppressed = if reference.is_some() || self.continue_in_next_word(tail) {
            true
        } else {
            let separator: &str = grapheme_indices.get(&match_start).unwrap();
            self.is_abbreviation(head, tail, separator) || self.is_exclamation_word(head, tail)
        };
        decide_boundary(cursor, mtch, reference, suppressed)
    }

    /// Whether the question for that boundary has an answer.
    fn can_find_boundary(
        &self,
        text: &str,
        grapheme_indices: &HashMap<usize, &str>,
        cursor: &GraphemeCursor,
        mtch: Span,
    ) -> (answer: bool)
        requires
            cuts(text@, cursor@),
            spans_in(text@, seq![mtch]),
        ensures
            answer == self.model().boundary_defined(
                text@,
                cluster_views(grapheme_indices@),
                cursor@,
                mtch,
            ),
    {
        let (match_start, match_end) = mtch;
        let next_char_offset = match cursor.next_grapheme(match_start) {
            Some(next) => next,
            None => return true,
        };
        let len = str_len(text);
        proof {
            assert(seq![mtch][0] == mtch);
            crate::text::lemma_ends(text@);
        }
        let tail = slice(text, next_char_offset, len);
        match self.numbered_reference_regex().find(tail) {
            Some(reference) => match_end.checked_add(reference.1).is_some(),
            None => self.continue_in_next_word(tail) || grapheme_indices.contains_key(&match_start),
        }
    }

    /// The ranges of `text` that are not to be broken up: quotations, email addresses and text in
    /// brackets.
    fn get_skippable_ranges(&self, text: &str) -> (ranges: Vec<Span>)
        requires
            fancy_spans(PARENS@, text@) is Some,
        ensures
            self.model().skippable(text@) == Some(ranges@),
            ranges@ == pattern_spans(self.model().quote_pairs, text@) + pattern_spans(
                EMAIL@,
                text@,
            ) + fancy_spans(PARENS@, text@)->0,
            spans_in(text@, pattern_spans(self.model().quote_pairs, text@)),
            spans_in(text@, pattern_spans(EMAIL@, text@)),
            spans_in(text@, fancy_spans(PARENS@, text@)->0),
            ranges_in(text@, ranges@),
            none_empty(pattern_spans(EMAIL@, text@)),
            none_empty(fancy_spans(PARENS@, text@)->0),
            on_one_line(text@, fancy_spans(PARENS@, text@)->0),
            is_shared_pattern(self.model().quote_pairs) ==> none_empty(ranges@),
    {
        let quotes = self.quote_pairs_regex().find_iter(text);
        let mails = emails().find_iter(text);
        let parens = fancy_find_iter(PARENS, text).unwrap();
        proof {
            assert(forall|k: int|
                0 <= k < quotes@.len() ==> range_in(text@, #[trigger] quotes@[k]));
            assert(forall|k: int| 0 <= k < mails@.len() ==> range_in(text@, #[trigger] mails@[k]));
            assert(forall|k: int|
                0 <= k < parens@.len() ==> range_in(text@, #[trigger] parens@[k]));
        }
        chain_ranges(quotes, mails, parens)
    }

    /// Those ranges, or `None` if the search for brackets is given up.
    fn try_get_skippable_ranges(&self, text: &str) -> (ranges: Option<Vec<Span>>)
        ensures
            ranges is Some <==> self.model().skippable(text@) is Some,
            ranges is Some ==> self.model().skippable(text@) == Some(ranges->0@),
            ranges is Some <==> fancy_spans(PARENS@, text@) is Some,
            ranges is Some ==> ranges->0@ == pattern_spans(self.model().quote_pairs, text@)
                + pattern_spans(EMAIL@, text@) + fancy_spans(PARENS@, text@)->0,
            ranges is Some ==> ranges_in(text@, ranges->0@),
            ranges is Some && is_shared_pattern(self.model().quote_pairs) ==> none_empty(
                ranges->0@,
            ),
    {
        if fancy_find_iter(PARENS, text).is_some() {
            Some(self.get_skippable_ranges(text))
        } else {
            None
        }
    }

    /// The boundaries that the terminators `matches` of `paragraph` make, or `None` if one of them
    /// has no answer or they are out of order.
    fn collect_boundaries(
        &self,
        paragraph: &str,
        grapheme_indices: &HashMap<usize, &str>,
        cursor: &GraphemeCursor,
        skippable_ranges: &Vec<Span>,
        matches: &Vec<Span>,
    ) -> (boundaries: Option<Vec<usize>>)
        requires
            cuts(paragraph@, cursor@),
            spans_in(paragraph@, matches@),
        ensures
            boundaries is Some <==> self.model().boundaries_defined(
                paragraph@,
                cluster_views(grapheme_indices@),
                cursor@,
                skippable_ranges@,
                matches@,
            ),
            boundaries is Some ==> as_ints(boundaries->0@) == self.model().boundaries_from(
                paragraph@,
                cluster_views(grapheme_indices@),
                cursor@,
                skippable_ranges@,
                matches@,
            ),
    {
        let ghost table = cluster_views(grapheme_indices@);
        let mut boundaries: Vec<usize> = vec![0];
        proof {
            assert(matches@.take(0) =~= Seq::<Span>::empty());
            assert(as_ints(boundaries@) =~= seq![0int]);
        }
        for k in 0..matches.len()
            invariant
                table == cluster_views(grapheme_indices@),
                cuts(paragraph@, cursor@),
                spans_in(paragraph@, matches@),
                forall|j: int|
                    0 <= j < k ==> self.model().boundary_defined(
                        paragraph@,
                        table,
                        cursor@,
                        #[trigger] matches@[j],
                    ),
                as_ints(boundaries@) =~= self.model().boundaries_from(
                    paragraph@,
                    table,
                    cursor@,
                    skippable_ranges@,
                    matches@.take(k as int),
                ),
        {
            let mtch = matches[k];
            assert(matches@[k as int] == mtch);
            if !self.can_find_boundary(paragraph, grapheme_indices, cursor, mtch) {
                return None;
            }
            let found = self.find_boundary(paragraph, grapheme_indices, cursor, mtch);
            assert(matches@.take(k + 1).drop_last() =~= matches@.take(k as int));
            admit_boundary(
                &mut boundaries,
                skippable_ranges,
                cursor,
                self.is_punctuation_between_quotes(),
                found,
            );
        }
        assert(matches@.take(matches@.len() as int) =~= matches@);
        if are_in_order(paragraph, &boundaries) {
            Some(boundaries)
        } else {
            None
        }
    }

    /// The boundaries of the sentences of `paragraph`, or `None` if it cannot be cut into
    /// sentences.
    fn paragraph_boundaries(&self, paragraph: &str) -> (boundaries: Option<Vec<usize>>)
        ensures
            boundaries is Some <==> self.model().paragraph_defined(paragraph@),
            boundaries is Some ==> as_ints(boundaries->0@) == self.model().boundaries(paragraph@),
    {
        let offsets = grapheme_offsets(paragraph);
        let grapheme_indices = cluster_table(paragraph, &offsets);
        let cursor = GraphemeCursor::new(offsets);
        let skippable_ranges = match self.try_get_skippable_ranges(paragraph) {
            Some(ranges) => ranges,
            None => return None,
        };
        let matches = self.sentence_break_regex().find_iter(paragraph);
        self.collect_boundaries(paragraph, &grapheme_indices, &cursor, &skippable_ranges, &matches)
    }

    /// The sentences of `text`.
    fn segment(&self, text: &str) -> (sentences: Vec<String>)
        requires
            self.model().text_defined(text@),
        ensures
            sentences.deep_view() == self.model().sentences(text@),
    {
        let pieces = consecutive_newlines().split_inclusive(text);
        let ghost views = str_views(pieces@);
        let mut sentences: Vec<String> = Vec::new();
        proof {
            assert(views == paragraphs(text@));
            assert(views.take(0) =~= Seq::<Seq<char>>::empty());
            assert(sentences.deep_view() =~= Seq::<Seq<char>>::empty());
        }
        for k in 0..pieces.len()
            invariant
                views == str_views(pieces@),
                forall|j: int|
                    0 <= j < views.len() ==> self.model().paragraph_defined(#[trigger] views[j]),
                sentences.deep_view() == self.model().sentences_of(views.take(k as int)),
        {
            let paragraph = pieces[k];
            assert(views[k as int] == paragraph@);
            let boundaries = self.paragraph_boundaries(paragraph).unwrap();
            let mut more = slice_sentences(paragraph, &boundaries);
            let ghost before = sentences.deep_view();
            let ghost added = more.deep_view();
            sentences.append(&mut more);
            assert(sentences.deep_view() =~= before + added);
            assert(views.take(k + 1).drop_last() =~= views.take(k as int));
        }
        assert(views.take(views.len() as int) =~= views);
        sentences
    }

    /// Whether `text` can be cut into paragraphs, and each of them into sentences.
    fn can_segment(&self, text: &str) -> (answer: bool)
        ensures
            answer == self.model().text_defined(text@),
    {
        let pieces = match consecutive_newlines().try_split_inclusive(text) {
            Some(pieces) => pieces,
            None => return false,
        };
        let ghost views = str_views(pieces@);
        for k in 0..pieces.len()
            invariant
                views == str_views(pieces@),
                views == paragraphs(text@),
                forall|j: int|
                    0 <= j < k ==> self.model().paragraph_defined(#[trigger] views[j]),
        {
            assert(views[k as int] == pieces[k as int]@);
            if self.paragraph_boundaries(pieces[k]).is_none() {
                assert(!self.model().paragraph_defined(views[k as int]));
                return false;
            }
        }
        true
    }

    /// The sentences of `text`, or `None` if it cannot be cut into them.
    fn try_segment(&self, text: &str) -> (sentences: Option<Vec<String>>)
        ensures
            sentences is Some <==> self.model().text_defined(text@),
            sentences is Some ==> sentences->0.deep_view() == self.model().sentences(text@),
    {
        if self.can_segment(text) {
            Some(self.segment(text))
        } else {
            None
        }
    }
}

/// Nothing is lost in passing from machine values to those that the rules speak of.
pub proof fn law_views_keep_values(b: usize, behind: bool, offsets: Seq<usize>, word: &str)
    ensures
        boundary_view(Some((b, behind))) == Some((b as int, behind)),
        boundary_view(None) is None,
        as_ints(offsets).len() == offsets.len(),
        forall|i: int| 0 <= i < offsets.len() ==> #[trigger] as_ints(offsets)[i] == offsets[i],
        word_view(Some(word)) == Some(word@),
        word_view(None) is None,
{
}

} // verus!
