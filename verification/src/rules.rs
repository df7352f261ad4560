//! The rules by which a text is cut into sentences.
//!
//! A [`LanguageModel`] says what is particular to a language. Its functions say which sentences a
//! text has, step by step: what a word is, which terminators do not end a sentence, where each
//! boundary falls, and what is left between the boundaries.

use vstd::prelude::*;

use crate::constants::{CONSECUTIVE_NEWLINES, EMAIL, PARENS, WORD_SPLIT};
use crate::graphemes::{clusters, grapheme_starts, next_after};
use crate::pattern::{fancy_spans, first_span, last_end, pattern_spans, Span};
use crate::split::{split_defined, split_pieces};
use crate::text::{
    at_boundary, byte_len, byte_slice, byte_suffix, lowercase, trim, uppercase,
};

verus! {

/// What is particular to a language.
pub struct LanguageModel {
    /// The code of the language.
    pub code: Seq<char>,
    /// The pattern of quotations.
    pub quote_pairs: Seq<char>,
    /// The pattern of references that follow a sentence.
    pub numbered_reference: Seq<char>,
    /// The pattern of what can end a sentence.
    pub sentence_break: Seq<char>,
    /// The mark that follows an abbreviation.
    pub abbreviation_char: Seq<char>,
    /// The abbreviations, without that mark.
    pub abbreviations: Seq<Seq<char>>,
    /// The words that end in an exclamation mark.
    pub exclamation_words: Seq<Seq<char>>,
    /// Whether a sentence that ends right before a closing quotation mark ends after it instead.
    pub punctuation_between_quotes: bool,
    /// The last word of a text, if it has one.
    pub last_word: spec_fn(Seq<char>) -> Option<Seq<char>>,
    /// Whether a sentence goes on in the text behind a terminator.
    pub continuation: spec_fn(Seq<char>) -> bool,
    /// Whether the text before a terminator ends in an abbreviation, given also the text behind it
    /// and the cluster that the terminator starts with.
    pub abbreviation: spec_fn(Seq<char>, Seq<char>, Seq<char>) -> bool,
    /// Whether the text before a terminator ends in a word that takes an exclamation mark, given
    /// also the text behind it.
    pub exclamation: spec_fn(Seq<char>, Seq<char>) -> bool,
}

/// The last word of `text`.
pub open spec fn last_word(text: Seq<char>) -> Seq<char> {
    byte_suffix(text, last_end(pattern_spans(WORD_SPLIT@, text)))
}

/// Whether `text` starts with a lower-case ASCII letter or an ASCII digit.
pub open spec fn continues(text: Seq<char>) -> bool {
    text.len() > 0 && ('a' <= text[0] <= 'z' || '0' <= text[0] <= '9')
}

/// Where the first cluster of `word` ends, when the clusters start at `offsets`.
pub open spec fn first_cluster_end(word: Seq<char>, offsets: Seq<usize>) -> int {
    match next_after(offsets, 0) {
        Some(second) => second as int,
        None => byte_len(word) as int,
    }
}

/// `word` with its first cluster in lower case.
pub open spec fn normalized(word: Seq<char>) -> Seq<char> {
    let end = first_cluster_end(word, grapheme_starts(word));
    lowercase(byte_slice(word, 0, end)) + byte_suffix(word, end)
}

/// Whether one of the four forms of a word is among `words`.
pub open spec fn lists_any(
    words: Seq<Seq<char>>,
    word: Seq<char>,
    normal: Seq<char>,
    lower: Seq<char>,
    upper: Seq<char>,
) -> bool {
    words.contains(word) || words.contains(normal) || words.contains(lower) || words.contains(upper)
}

/// Whether a word that `separator` follows is one of the abbreviations `words`, which `mark` closes.
pub open spec fn listed_abbreviation(
    word: Option<Seq<char>>,
    mark: Seq<char>,
    words: Seq<Seq<char>>,
    separator: Seq<char>,
) -> bool {
    &&& mark == separator
    &&& word matches Some(w) && w.len() > 0 && lists_any(
        words,
        w,
        normalized(w),
        lowercase(w),
        uppercase(w),
    )
}

/// Whether a word with an exclamation mark behind it is one of `words`.
pub open spec fn listed_exclamation(word: Option<Seq<char>>, words: Seq<Seq<char>>) -> bool {
    word matches Some(w) && words.contains(w + "!"@)
}

/// The usual rule for the last word of a text.
pub open spec fn usual_last_word() -> spec_fn(Seq<char>) -> Option<Seq<char>> {
    |text: Seq<char>| Some(last_word(text))
}

/// The usual rule for whether a sentence goes on.
pub open spec fn usual_continuation() -> spec_fn(Seq<char>) -> bool {
    |tail: Seq<char>| continues(tail)
}

/// The usual rule for abbreviations: the last word is one of `words`, and `mark` follows it.
pub open spec fn usual_abbreviation(
    last: spec_fn(Seq<char>) -> Option<Seq<char>>,
    mark: Seq<char>,
    words: Seq<Seq<char>>,
) -> spec_fn(Seq<char>, Seq<char>, Seq<char>) -> bool {
    |head: Seq<char>, tail: Seq<char>, separator: Seq<char>|
        listed_abbreviation(last(head), mark, words, separator)
}

/// The usual rule for words that take an exclamation mark: the last word with such a mark is one of
/// `words`.
pub open spec fn usual_exclamation(
    last: spec_fn(Seq<char>) -> Option<Seq<char>>,
    words: Seq<Seq<char>>,
) -> spec_fn(Seq<char>, Seq<char>) -> bool {
    |head: Seq<char>, tail: Seq<char>| listed_exclamation(last(head), words)
}

/// The first of `offsets` after `pos`, or `pos` itself.
pub open spec fn or_next(offsets: Seq<usize>, pos: int) -> int {
    match next_after(offsets, pos) {
        Some(next) => next as int,
        None => pos,
    }
}

/// The boundary that the terminator `m` makes, and whether it stands behind a reference.
///
/// A reference belongs to the sentence before it: the boundary is the start of the cluster after
/// its end. Otherwise the sentence ends with the terminator, unless that is suppressed.
pub open spec fn decided(
    offsets: Seq<usize>,
    m: Span,
    reference: Option<Span>,
    suppressed: bool,
) -> Option<(int, bool)> {
    match reference {
        Some(r) => Some((or_next(offsets, m.1 + r.1), true)),
        None => if suppressed {
            None
        } else {
            Some((m.1 as int, false))
        },
    }
}

/// Whether `b` lies inside `range`, at neither of its ends.
pub open spec fn inside(range: Span, b: int) -> bool {
    range.0 < b < range.1
}

/// The first of `ranges` that `b` lies inside.
pub open spec fn first_around(ranges: Seq<Span>, b: int) -> Option<Span>
    decreases ranges.len(),
{
    if ranges.len() == 0 {
        None
    } else if inside(ranges[0], b) {
        Some(ranges[0])
    } else {
        first_around(ranges.drop_first(), b)
    }
}

/// Where the boundary `b` is put, given the ranges that are not to be broken up: inside such a
/// range there is none, except that it may move to the end of the range from the last cluster.
pub open spec fn placed(
    ranges: Seq<Span>,
    offsets: Seq<usize>,
    punctuation_between_quotes: bool,
    b: int,
) -> Option<int> {
    match first_around(ranges, b) {
        None => Some(b),
        Some(range) => if or_next(offsets, b) == range.1 && punctuation_between_quotes {
            Some(range.1 as int)
        } else {
            None
        },
    }
}

/// The boundary that comes of what was found for one terminator. Behind a reference it stands
/// wherever it falls.
pub open spec fn admitted(
    ranges: Seq<Span>,
    offsets: Seq<usize>,
    punctuation_between_quotes: bool,
    found: Option<(int, bool)>,
) -> Option<int> {
    match found {
        None => None,
        Some((b, behind_reference)) => if behind_reference {
            Some(b)
        } else {
            placed(ranges, offsets, punctuation_between_quotes, b)
        },
    }
}

/// Whether `boundaries` are in order, and each lies between characters of `text`.
pub open spec fn in_order(text: Seq<char>, boundaries: Seq<int>) -> bool {
    &&& forall|k: int|
        0 <= k < boundaries.len() ==> at_boundary(text, #[trigger] boundaries[k])
    &&& forall|j: int, k: int|
        0 <= j < k < boundaries.len() ==> boundaries[j] <= boundaries[k]
}

/// Where the slice that starts at the boundary with index `k` ends: at the next boundary, or at
/// the end of the text.
pub open spec fn slice_end(text: Seq<char>, boundaries: Seq<int>, k: int) -> int {
    if k + 1 < boundaries.len() {
        boundaries[k + 1]
    } else {
        byte_len(text) as int
    }
}

/// The parts of `text` between `boundaries`.
pub open spec fn slices(text: Seq<char>, boundaries: Seq<int>) -> Seq<Seq<char>> {
    Seq::new(
        boundaries.len(),
        |k: int| byte_slice(text, boundaries[k], slice_end(text, boundaries, k)),
    )
}

/// The parts that are not empty, each without the spaces around it.
pub open spec fn kept(parts: Seq<Seq<char>>) -> Seq<Seq<char>>
    decreases parts.len(),
{
    if parts.len() == 0 {
        Seq::empty()
    } else if parts.last().len() > 0 {
        kept(parts.drop_last()).push(trim(parts.last()))
    } else {
        kept(parts.drop_last())
    }
}

/// The paragraphs of `text`.
pub open spec fn paragraphs(text: Seq<char>) -> Seq<Seq<char>> {
    split_pieces(text, pattern_spans(CONSECUTIVE_NEWLINES@, text))
}

impl LanguageModel {
    /// The reference at the start of `tail`.
    pub open spec fn reference(self, tail: Seq<char>) -> Option<Span> {
        first_span(pattern_spans(self.numbered_reference, tail))
    }

    /// Whether the language follows the usual rules.
    pub open spec fn is_usual(self) -> bool {
        &&& self.last_word == usual_last_word()
        &&& self.continuation == usual_continuation()
        &&& self.abbreviation == usual_abbreviation(
            self.last_word,
            self.abbreviation_char,
            self.abbreviations,
        )
        &&& self.exclamation == usual_exclamation(self.last_word, self.exclamation_words)
    }

    /// Whether the terminator between `head` and `tail` does not end a sentence.
    pub open spec fn suppressed(
        self,
        head: Seq<char>,
        tail: Seq<char>,
        separator: Seq<char>,
    ) -> bool {
        (self.continuation)(tail) || (self.abbreviation)(head, tail, separator) || (
        self.exclamation)(head, tail)
    }

    /// The boundary that the terminator `m` of `text` makes, and whether it stands behind a
    /// reference. A terminator in the last cluster makes none.
    pub open spec fn boundary(
        self,
        text: Seq<char>,
        table: Map<usize, Seq<char>>,
        offsets: Seq<usize>,
        m: Span,
    ) -> Option<(int, bool)> {
        match next_after(offsets, m.0 as int) {
            None => None,
            Some(next) => {
                let head = byte_slice(text, 0, m.0 as int);
                let tail = byte_suffix(text, next as int);
                decided(
                    offsets,
                    m,
                    self.reference(tail),
                    self.suppressed(head, tail, table[m.0]),
                )
            },
        }
    }

    /// Whether the question for that boundary has an answer: the end of a reference can be
    /// computed, and where the cluster of the terminator matters there is one that starts with it.
    pub open spec fn boundary_defined(
        self,
        text: Seq<char>,
        table: Map<usize, Seq<char>>,
        offsets: Seq<usize>,
        m: Span,
    ) -> bool {
        match next_after(offsets, m.0 as int) {
            None => true,
            Some(next) => {
                let tail = byte_suffix(text, next as int);
                match self.reference(tail) {
                    Some(r) => m.1 + r.1 <= usize::MAX,
                    None => (self.continuation)(tail) || table.contains_key(m.0),
                }
            },
        }
    }

    /// The ranges of `text` that are not to be broken up: quotations, email addresses and text in
    /// brackets, in this order.
    pub open spec fn skippable(self, text: Seq<char>) -> Option<Seq<Span>> {
        match fancy_spans(PARENS@, text) {
            None => None,
            Some(parens) => Some(
                pattern_spans(self.quote_pairs, text) + pattern_spans(EMAIL@, text) + parens,
            ),
        }
    }

    /// The boundaries that the terminators `ms` of `text` make, in their order.
    pub open spec fn made(
        self,
        text: Seq<char>,
        table: Map<usize, Seq<char>>,
        offsets: Seq<usize>,
        ranges: Seq<Span>,
        ms: Seq<Span>,
    ) -> Seq<int>
        decreases ms.len(),
    {
        if ms.len() == 0 {
            Seq::empty()
        } else {
            let earlier = self.made(text, table, offsets, ranges, ms.drop_last());
            match admitted(
                ranges,
                offsets,
                self.punctuation_between_quotes,
                self.boundary(text, table, offsets, ms.last()),
            ) {
                Some(b) => earlier.push(b),
                None => earlier,
            }
        }
    }

    /// The boundaries of the sentences of `text`, when its clusters, the ranges not to be broken
    /// up and the terminators are these.
    pub open spec fn boundaries_from(
        self,
        text: Seq<char>,
        table: Map<usize, Seq<char>>,
        offsets: Seq<usize>,
        ranges: Seq<Span>,
        ms: Seq<Span>,
    ) -> Seq<int> {
        seq![0int] + self.made(text, table, offsets, ranges, ms)
    }

    /// Whether each of the terminators `ms` has an answer, and the boundaries that they make are in
    /// order.
    pub open spec fn boundaries_defined(
        self,
        text: Seq<char>,
        table: Map<usize, Seq<char>>,
        offsets: Seq<usize>,
        ranges: Seq<Span>,
        ms: Seq<Span>,
    ) -> bool {
        &&& forall|k: int|
            0 <= k < ms.len() ==> self.boundary_defined(text, table, offsets, #[trigger] ms[k])
        &&& in_order(text, self.boundaries_from(text, table, offsets, ranges, ms))
    }

    /// The boundaries of the sentences of one paragraph.
    pub open spec fn boundaries(self, paragraph: Seq<char>) -> Seq<int> {
        let offsets = grapheme_starts(paragraph);
        self.boundaries_from(
            paragraph,
            clusters(paragraph, offsets),
            offsets,
            self.skippable(paragraph)->0,
            pattern_spans(self.sentence_break, paragraph),
        )
    }

    /// Whether a paragraph can be cut into sentences.
    pub open spec fn paragraph_defined(self, paragraph: Seq<char>) -> bool {
        let offsets = grapheme_starts(paragraph);
        &&& self.skippable(paragraph) is Some
        &&& self.boundaries_defined(
            paragraph,
            clusters(paragraph, offsets),
            offsets,
            self.skippable(paragraph)->0,
            pattern_spans(self.sentence_break, paragraph),
        )
    }

    /// The sentences of one paragraph.
    pub open spec fn paragraph_sentences(self, paragraph: Seq<char>) -> Seq<Seq<char>> {
        kept(slices(paragraph, self.boundaries(paragraph)))
    }

    /// The sentences of `parts`, one paragraph after another.
    pub open spec fn sentences_of(self, parts: Seq<Seq<char>>) -> Seq<Seq<char>>
        decreases parts.len(),
    {
        if parts.len() == 0 {
            Seq::empty()
        } else {
            self.sentences_of(parts.drop_last()) + self.paragraph_sentences(parts.last())
        }
    }

    /// The sentences of `text`.
    pub open spec fn sentences(self, text: Seq<char>) -> Seq<Seq<char>> {
        self.sentences_of(paragraphs(text))
    }

    /// Whether `text` can be cut into paragraphs, and each of them into sentences.
    pub open spec fn text_defined(self, text: Seq<char>) -> bool {
        &&& split_defined(text, pattern_spans(CONSECUTIVE_NEWLINES@, text))
        &&& forall|k: int|
            0 <= k < paragraphs(text).len() ==> self.paragraph_defined(
                #[trigger] paragraphs(text)[k],
            )
    }
}

} // verus!
