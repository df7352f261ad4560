//! Regular expressions over text, and where they match.

use vstd::prelude::*;

use crate::constants::{
    CONSECUTIVE_NEWLINES, EMAIL, GLOBAL_SENTENCE_TERMINATORS, NUMBERED_REFERENCE, PARENS, QUOTED,
    QUOTE_PAIRS_ARRAY, WORD_SEPARATORS, WORD_SPLIT,
};
use crate::split::str_views;
use crate::text::{at_boundary, byte_len, byte_slice};

verus! {

/// Where a match starts and where it ends, in bytes.
pub type Span = (usize, usize);

/// Whether `spans` lie in `text` one after another, each from one character boundary to another.
pub open spec fn spans_in(text: Seq<char>, spans: Seq<Span>) -> bool {
    &&& forall|k: int|
        #![trigger spans[k]]
        0 <= k < spans.len() ==> {
            &&& spans[k].0 <= spans[k].1
            &&& at_boundary(text, spans[k].0 as int)
            &&& at_boundary(text, spans[k].1 as int)
        }
    &&& forall|j: int, k: int| 0 <= j < k < spans.len() ==> spans[j].1 <= spans[k].0
}

/// Whether none of `spans` is empty.
pub open spec fn none_empty(spans: Seq<Span>) -> bool {
    forall|k: int| 0 <= k < spans.len() ==> (#[trigger] spans[k]).0 < spans[k].1
}

/// Whether each of `spans` lies on one line of `text`.
pub open spec fn on_one_line(text: Seq<char>, spans: Seq<Span>) -> bool {
    forall|k: int|
        0 <= k < spans.len() ==> !byte_slice(
            text,
            (#[trigger] spans[k]).0 as int,
            spans[k].1 as int,
        ).contains('\n')
}

/// The index of the first character of `text`, from `i` on, that is not in `class`.
pub open spec fn run_end(text: Seq<char>, class: Seq<char>, i: int) -> int
    decreases text.len() - i,
{
    if 0 <= i < text.len() && class.contains(text[i]) {
        run_end(text, class, i + 1)
    } else {
        i
    }
}

/// The byte offset of the character at index `i` of `text`.
pub open spec fn char_offset(text: Seq<char>, i: int) -> usize {
    byte_len(text.take(i)) as usize
}

/// Where the characters of `class` stand in `text`, from index `i` on: each longest run of them
/// that has at least `least` characters, in order.
pub open spec fn char_runs(text: Seq<char>, class: Seq<char>, least: nat, i: int) -> Seq<Span>
    decreases text.len() - i,
{
    if i < 0 || i >= text.len() {
        Seq::empty()
    } else if class.contains(text[i]) {
        let end = run_end(text, class, i + 1);
        proof {
            lemma_run_end(text, class, i + 1);
        }
        let rest = char_runs(text, class, least, end);
        if end - i >= least {
            seq![(char_offset(text, i), char_offset(text, end))] + rest
        } else {
            rest
        }
    } else {
        char_runs(text, class, least, i + 1)
    }
}

/// A run ends in the text, and not before it starts.
pub proof fn lemma_run_end(text: Seq<char>, class: Seq<char>, i: int)
    requires
        0 <= i <= text.len(),
    ensures
        i <= run_end(text, class, i) <= text.len(),
    decreases text.len() - i,
{
    if 0 <= i < text.len() && class.contains(text[i]) {
        lemma_run_end(text, class, i + 1);
    }
}

/// The pattern of a run of characters of `class`.
pub open spec fn class_pattern(class: Seq<char>) -> Seq<char> {
    "["@ + class + "]+"@
}

/// The characters between the square brackets of a pattern of such a run.
pub open spec fn class_of(source: Seq<char>) -> Seq<char> {
    source.subrange(1, source.len() - 2)
}

/// Whether `source` is the pattern of a run of characters that stand for themselves.
pub open spec fn is_class_pattern(source: Seq<char>) -> bool {
    &&& source.len() >= 3
    &&& source == class_pattern(class_of(source))
    &&& plain_class(class_of(source))
}

/// Whether every character of `class` stands for itself between square brackets.
pub open spec fn plain_class(class: Seq<char>) -> bool {
    &&& class.len() > 0
    &&& forall|i: int|
        0 <= i < class.len() ==> !seq!['[', ']', '\\', '^', '-', '&', '~'].contains(
            #[trigger] class[i],
        )
}

/// The pattern of a quotation between the two marks of one of the first `n` of `pairs`.
pub open spec fn quote_pattern(pairs: Seq<(&str, &str)>, n: int) -> Seq<char>
    decreases n,
{
    if n <= 0 {
        Seq::empty()
    } else {
        let quotation = pairs[n - 1].0@ + QUOTED@ + pairs[n - 1].1@;
        if n == 1 {
            quotation
        } else {
            quote_pattern(pairs, n - 1) + "|"@ + quotation
        }
    }
}

/// The patterns that this library searches with. Each is well formed.
pub open spec fn is_shared_pattern(source: Seq<char>) -> bool {
    ||| source == class_pattern(GLOBAL_SENTENCE_TERMINATORS@)
    ||| source == quote_pattern(QUOTE_PAIRS_ARRAY@, QUOTE_PAIRS_ARRAY@.len() as int)
    ||| source == EMAIL@
    ||| source == CONSECUTIVE_NEWLINES@
    ||| source == NUMBERED_REFERENCE@
    ||| source == WORD_SPLIT@
}

/// Whether `regex::Regex::new` accepts the pattern `source`.
pub uninterp spec fn regex_compiles(source: Seq<char>) -> bool;

/// The matches that `regex::Regex::find_iter` finds in `text` with the pattern `source`.
pub uninterp spec fn regex_spans(source: Seq<char>, text: Seq<char>) -> Seq<Span>;

/// The matches of the pattern `source` in `text`, spelled out where the pattern is a simple one.
///
/// A class of characters that stand for themselves, followed by `+`, matches each longest run of
/// them; so does the pattern of word separators. The pattern of empty lines matches each longest
/// run of two or more line feeds. A numbered reference starts with a square bracket, at the start
/// of the text.
pub open spec fn pattern_spans(source: Seq<char>, text: Seq<char>) -> Seq<Span> {
    if is_class_pattern(source) {
        char_runs(text, class_of(source), 1, 0)
    } else if source == WORD_SPLIT@ {
        char_runs(text, WORD_SEPARATORS@, 1, 0)
    } else if source == CONSECUTIVE_NEWLINES@ {
        char_runs(text, seq!['\n'], 2, 0)
    } else if source == NUMBERED_REFERENCE@ && (text.len() == 0 || text[0] != '[') {
        Seq::empty()
    } else {
        regex_spans(source, text)
    }
}

/// The matches that `fancy_regex::Regex::find_iter` finds in `text` with the pattern `source`,
/// or `None` where it gives up searching.
pub uninterp spec fn fancy_spans(source: Seq<char>, text: Seq<char>) -> Option<Seq<Span>>;

/// Whether `source` is a pattern that `regex::Regex::new` accepts, either because it is one of
/// those above or because that was found out.
pub open spec fn is_pattern(source: Seq<char>) -> bool {
    is_shared_pattern(source) || regex_compiles(source)
}

/// The offset of a character is a boundary, and the offsets grow.
proof fn lemma_char_offset(text: Seq<char>, i: int, j: int)
    requires
        0 <= i <= j <= text.len(),
        byte_len(text) <= usize::MAX,
    ensures
        char_offset(text, i) == byte_len(text.take(i)),
        at_boundary(text, char_offset(text, i) as int),
        char_offset(text, i) <= char_offset(text, j),
        i < j ==> char_offset(text, i) < char_offset(text, j),
{
    assert(text.take(i) + text.skip(i) =~= text);
    crate::text::lemma_prefix_boundary(text.take(i), text.skip(i));
    assert(text.take(j) + text.skip(j) =~= text);
    crate::text::lemma_prefix_boundary(text.take(j), text.skip(j));
    assert(text.take(i) + text.subrange(i, j) =~= text.take(j));
    crate::text::lemma_encode_concat(text.take(i), text.subrange(i, j));
    crate::text::lemma_byte_len_zero(text.subrange(i, j));
}

/// Runs lie in the text one after another, and none is empty.
pub proof fn lemma_char_runs(text: Seq<char>, class: Seq<char>, least: nat, i: int)
    requires
        0 <= i <= text.len(),
        byte_len(text) <= usize::MAX,
    ensures
        spans_in(text, char_runs(text, class, least, i)),
        forall|k: int|
            0 <= k < char_runs(text, class, least, i).len() ==> char_offset(text, i) <= (
            #[trigger] char_runs(text, class, least, i)[k]).0 && char_runs(
                text,
                class,
                least,
                i,
            )[k].0 < char_runs(text, class, least, i)[k].1,
    decreases text.len() - i,
{
    if i < text.len() {
        lemma_char_offset(text, i, i + 1);
        if class.contains(text[i]) {
            let end = run_end(text, class, i + 1);
            lemma_run_end(text, class, i + 1);
            lemma_char_offset(text, i, end);
            lemma_char_offset(text, end, end);
            lemma_char_runs(text, class, least, end);
        } else {
            lemma_char_runs(text, class, least, i + 1);
        }
    }
}

/// Where no character of the class stands, there is no run.
pub proof fn lemma_no_runs(text: Seq<char>, class: Seq<char>, least: nat, i: int)
    requires
        forall|k: int| i <= k < text.len() ==> !class.contains(#[trigger] text[k]),
    ensures
        char_runs(text, class, least, i) == Seq::<Span>::empty(),
    decreases text.len() - i,
{
    if 0 <= i < text.len() {
        lemma_no_runs(text, class, least, i + 1);
    }
}

/// A run does not reach beyond a character that is not of the class.
proof fn lemma_run_stops(text: Seq<char>, class: Seq<char>, i: int, e: int)
    requires
        0 <= i <= e <= text.len(),
        e < text.len() ==> !class.contains(text[e]),
    ensures
        i <= run_end(text, class, i) <= e,
    decreases e - i,
{
    if i < e && class.contains(text[i]) {
        lemma_run_stops(text, class, i + 1, e);
    }
}

/// Where the last character of the class stands right before index `e`, the last run ends there.
pub proof fn lemma_last_run(text: Seq<char>, class: Seq<char>, i: int, e: int)
    requires
        0 <= i < e <= text.len(),
        class.contains(text[e - 1]),
        forall|k: int| e <= k < text.len() ==> !class.contains(#[trigger] text[k]),
    ensures
        char_runs(text, class, 1, i).len() > 0,
        char_runs(text, class, 1, i).last().1 == char_offset(text, e),
    decreases e - i,
{
    if class.contains(text[i]) {
        let end = run_end(text, class, i + 1);
        lemma_run_stops(text, class, i + 1, e);
        if end < e {
            lemma_last_run(text, class, end, e);
        } else {
            lemma_no_runs(text, class, 1, e);
        }
    } else {
        lemma_last_run(text, class, i + 1, e);
    }
}

/// Where no two characters of the class stand next to each other, there is no run of two.
pub proof fn lemma_no_pairs(text: Seq<char>, class: Seq<char>, i: int)
    requires
        forall|k: int|
            i <= k < text.len() - 1 ==> !(class.contains(#[trigger] text[k]) && class.contains(
                text[k + 1],
            )),
    ensures
        char_runs(text, class, 2, i) == Seq::<Span>::empty(),
    decreases text.len() - i,
{
    if 0 <= i < text.len() {
        if class.contains(text[i]) {
            assert(run_end(text, class, i + 1) == i + 1);
        }
        lemma_no_pairs(text, class, i + 1);
    }
}

/// A run ends at the first character that is not of the class.
proof fn lemma_run_reaches(text: Seq<char>, class: Seq<char>, i: int, e: int)
    requires
        0 <= i <= e <= text.len(),
        forall|k: int| i <= k < e ==> class.contains(#[trigger] text[k]),
        e < text.len() ==> !class.contains(text[e]),
    ensures
        run_end(text, class, i) == e,
    decreases e - i,
{
    if i < e {
        lemma_run_reaches(text, class, i + 1, e);
    }
}

/// Where characters of the class stand next to each other in one place only, from index `s` up to
/// `e`, there is one run of two or more.
pub proof fn lemma_one_run(text: Seq<char>, class: Seq<char>, i: int, s: int, e: int)
    requires
        0 <= i <= s,
        s + 2 <= e <= text.len(),
        forall|k: int| s <= k < e ==> class.contains(#[trigger] text[k]),
        s > 0 ==> !class.contains(text[s - 1]),
        e < text.len() ==> !class.contains(text[e]),
        forall|k: int|
            0 <= k < s - 1 || e <= k < text.len() - 1 ==> !(class.contains(#[trigger] text[k])
                && class.contains(text[k + 1])),
    ensures
        char_runs(text, class, 2, i) == seq![(char_offset(text, s), char_offset(text, e))],
    decreases s - i,
{
    if i == s {
        lemma_run_reaches(text, class, s + 1, e);
        lemma_no_pairs(text, class, e);
        assert(char_runs(text, class, 2, i) =~= seq![
            (char_offset(text, s), char_offset(text, e)),
        ]);
    } else {
        if class.contains(text[i]) {
            assert(!class.contains(text[i + 1]));
            assert(run_end(text, class, i + 1) == i + 1);
        }
        lemma_one_run(text, class, i + 1, s, e);
    }
}

proof fn lemma_run_end_of_prefix(a: Seq<char>, b: Seq<char>, class: Seq<char>, i: int)
    requires
        0 <= i <= a.len(),
        forall|k: int| 0 <= k < b.len() ==> !class.contains(#[trigger] b[k]),
    ensures
        run_end(a + b, class, i) == run_end(a, class, i),
    decreases a.len() - i,
{
    if i < a.len() {
        assert((a + b)[i] == a[i]);
        lemma_run_end_of_prefix(a, b, class, i + 1);
    } else if b.len() > 0 {
        assert((a + b)[i] == b[0]);
    }
}

/// Text without characters of the class adds no run to the text before it.
pub proof fn lemma_runs_of_prefix(
    a: Seq<char>,
    b: Seq<char>,
    class: Seq<char>,
    least: nat,
    i: int,
)
    requires
        0 <= i <= a.len(),
        forall|k: int| 0 <= k < b.len() ==> !class.contains(#[trigger] b[k]),
    ensures
        char_runs(a + b, class, least, i) == char_runs(a, class, least, i),
    decreases a.len() - i,
{
    let text = a + b;
    if i == a.len() {
        assert forall|k: int| i <= k < text.len() implies !class.contains(#[trigger] text[k]) by {
            assert(text[k] == b[k - i]);
        }
        lemma_no_runs(text, class, least, i);
    } else {
        assert(text[i] == a[i]);
        if class.contains(a[i]) {
            let end = run_end(a, class, i + 1);
            lemma_run_end_of_prefix(a, b, class, i + 1);
            lemma_run_end(a, class, i + 1);
            assert(text.take(i) =~= a.take(i));
            assert(text.take(end) =~= a.take(end));
            lemma_runs_of_prefix(a, b, class, least, end);
        } else {
            lemma_runs_of_prefix(a, b, class, least, i + 1);
        }
    }
}

/// The matches of the pattern of a run of characters that stand for themselves.
pub proof fn lemma_class_spans(class: Seq<char>, text: Seq<char>)
    requires
        plain_class(class),
    ensures
        pattern_spans(class_pattern(class), text) == char_runs(text, class, 1, 0),
{
    reveal_strlit("[");
    reveal_strlit("]+");
    assert(class_of(class_pattern(class)) =~= class);
}

/// The matches of the pattern of empty lines.
pub proof fn lemma_empty_line_spans(text: Seq<char>)
    ensures
        pattern_spans(CONSECUTIVE_NEWLINES@, text) == char_runs(text, seq!['\n'], 2, 0),
{
    reveal_strlit("[");
    reveal_strlit(r"(\n{2,})");
    assert(CONSECUTIVE_NEWLINES@[0] == '(');
    reveal_strlit(r"[\s\.]+");
    assert(WORD_SPLIT@[0] == '[');
}

/// The matches of the pattern of word separators.
pub proof fn lemma_word_separator_spans(text: Seq<char>)
    ensures
        pattern_spans(WORD_SPLIT@, text) == char_runs(text, WORD_SEPARATORS@, 1, 0),
{
    reveal_strlit(r"[\s\.]+");
    assert(class_of(WORD_SPLIT@)[0] == '\\');
    assert(seq!['[', ']', '\\', '^', '-', '&', '~'][2] == '\\');
}

/// The characters that can end a sentence stand for themselves. A space is none of them, nor a
/// digit or a line feed.
pub proof fn lemma_terminators_are_plain()
    ensures
        plain_class(GLOBAL_SENTENCE_TERMINATORS@),
        !GLOBAL_SENTENCE_TERMINATORS@.contains(' '),
        !GLOBAL_SENTENCE_TERMINATORS@.contains('1'),
        !GLOBAL_SENTENCE_TERMINATORS@.contains('\n'),
{
    reveal_strlit("!.?։؟۔܀܁܂߹।॥၊။።፧፨᙮᜵᜶᠃᠉᥄᥅᪨᪩᪪᪫᭚᭛᭞᭟᰻᰼᱾᱿‼‽⁇⁈⁉⸮⸼꓿꘎꘏꛳꛷꡶꡷꣎꣏꤯꧈꧉꩝꩞꩟꫰꫱꯫﹒﹖﹗！．？｡。");
}

/// Calls `regex::Regex::new`: whether the pattern is well formed and not too large.
#[verifier::external_body]
fn regex_new(source: &str) -> (ok: bool)
    ensures
        ok == regex_compiles(source@),
{
    regex::Regex::new(source).is_ok()
}

/// Calls `regex::Regex::find_iter`, which yields successive matches that do not overlap, each at
/// character boundaries. None of the patterns of this library matches the empty string.
#[verifier::external_body]
fn regex_find_iter(source: &str, text: &str) -> (spans: Vec<Span>)
    requires
        is_pattern(source@),
    ensures
        spans@ == regex_spans(source@, text@),
        spans@ == pattern_spans(source@, text@),
        spans_in(text@, spans@),
        is_shared_pattern(source@) ==> none_empty(spans@),
{
    let re = regex::Regex::new(source).unwrap();
    re.find_iter(text).map(|m| (m.start(), m.end())).collect()
}

/// Calls `regex::Regex::find`, whose match is the first of those of `find_iter`.
#[verifier::external_body]
fn regex_find(source: &str, text: &str) -> (span: Option<Span>)
    requires
        is_pattern(source@),
    ensures
        span == first_span(pattern_spans(source@, text@)),
        span is Some ==> spans_in(text@, seq![span->0]),
{
    let re = regex::Regex::new(source).unwrap();
    re.find(text).map(|m| (m.start(), m.end()))
}

/// Calls `regex::Regex::split`, which yields the pieces of the text before, between and behind the
/// matches of `find_iter`.
#[verifier::external_body]
fn regex_split<'a>(source: &str, text: &'a str) -> (pieces: Vec<&'a str>)
    requires
        is_pattern(source@),
    ensures
        str_views(pieces@) == pieces_between(text@, pattern_spans(source@, text@)),
{
    let re = regex::Regex::new(source).unwrap();
    re.split(text).collect()
}

/// Calls `fancy_regex::Regex::find_iter` with the pattern of brackets and collects its matches.
/// There are none to collect where the search is given up because it takes too many steps. The
/// matches do not overlap, and each lies at character boundaries. None is empty, since a match
/// holds two brackets, and none holds a line feed, since neither a bracket nor what `.` stands for
/// is one.
#[verifier::external_body]
pub(crate) fn fancy_find_iter(source: &str, text: &str) -> (spans: Option<Vec<Span>>)
    requires
        source@ == PARENS@,
    ensures
        spans is Some <==> fancy_spans(source@, text@) is Some,
        spans is Some ==> spans->0@ == fancy_spans(source@, text@)->0,
        spans is Some ==> spans_in(text@, spans->0@),
        spans is Some ==> none_empty(spans->0@),
        spans is Some ==> on_one_line(text@, spans->0@),
{
    let re = fancy_regex::Regex::new(source).ok()?;
    let found: Result<Vec<fancy_regex::Match>, fancy_regex::Error> = re.find_iter(text).collect();
    Some(found.ok()?.iter().map(|m| (m.start(), m.end())).collect())
}

/// The first of `spans`, if there is one.
pub open spec fn first_span(spans: Seq<Span>) -> Option<Span> {
    if spans.len() == 0 {
        None
    } else {
        Some(spans[0])
    }
}

/// Where the last of `spans` ends; 0 if there is none.
pub open spec fn last_end(spans: Seq<Span>) -> int {
    if spans.len() == 0 {
        0
    } else {
        spans.last().1 as int
    }
}

/// The pieces of `text` before, between and behind `spans`.
pub open spec fn pieces_between(text: Seq<char>, spans: Seq<Span>) -> Seq<Seq<char>> {
    Seq::new(
        spans.len() + 1,
        |k: int|
            byte_slice(
                text,
                last_end(spans.take(k)),
                if k < spans.len() {
                    spans[k].0 as int
                } else {
                    byte_len(text) as int
                },
            ),
    )
}

/// A regular expression that is known to be well formed. It is compiled anew for each search.
pub struct Pattern {
    source: String,
}

impl View for Pattern {
    type V = Seq<char>;

    closed spec fn view(&self) -> Seq<char> {
        self.source@
    }
}

impl Pattern {
    #[verifier::type_invariant]
    spec fn well_formed(self) -> bool {
        is_pattern(self.source@)
    }

    /// The pattern that `source` spells, or `None` if it is not well formed.
    pub fn new(source: &str) -> (pattern: Option<Pattern>)
        ensures
            pattern is Some <==> regex_compiles(source@),
            pattern is Some ==> pattern->0@ == source@,
    {
        if regex_new(source) {
            Some(Pattern { source: source.to_string() })
        } else {
            None
        }
    }

    /// One of the patterns of this library.
    pub fn shared(source: &str) -> (pattern: Pattern)
        requires
            is_shared_pattern(source@),
        ensures
            pattern@ == source@,
    {
        Pattern { source: source.to_string() }
    }

    /// All matches in `text`.
    pub fn find_iter(&self, text: &str) -> (spans: Vec<Span>)
        ensures
            spans@ == pattern_spans(self@, text@),
            spans_in(text@, spans@),
            is_shared_pattern(self@) ==> none_empty(spans@),
    {
        proof {
            use_type_invariant(self);
        }
        regex_find_iter(self.source.as_str(), text)
    }

    /// The first match in `text`.
    pub fn find(&self, text: &str) -> (span: Option<Span>)
        ensures
            span == first_span(pattern_spans(self@, text@)),
            span is Some ==> spans_in(text@, seq![span->0]),
    {
        proof {
            use_type_invariant(self);
        }
        regex_find(self.source.as_str(), text)
    }

    /// The pieces of `text` before, between and behind the matches.
    pub fn split<'a>(&self, text: &'a str) -> (pieces: Vec<&'a str>)
        ensures
            str_views(pieces@) == pieces_between(text@, pattern_spans(self@, text@)),
    {
        proof {
            use_type_invariant(self);
        }
        regex_split(self.source.as_str(), text)
    }
}

/// Runs of the characters that can end a sentence.
pub fn sentence_terminators() -> (pattern: Pattern)
    ensures
        pattern@ == class_pattern(GLOBAL_SENTENCE_TERMINATORS@),
{
    let mut source = "[".to_string();
    source.append(GLOBAL_SENTENCE_TERMINATORS);
    source.append("]+");
    Pattern::shared(source.as_str())
}

/// Quotations between the marks of any of the pairs.
pub fn quotations() -> (pattern: Pattern)
    ensures
        pattern@ == quote_pattern(QUOTE_PAIRS_ARRAY@, QUOTE_PAIRS_ARRAY@.len() as int),
{
    let pairs = QUOTE_PAIRS_ARRAY;
    let mut source = String::new();
    for i in 0..pairs.len()
        invariant
            pairs == QUOTE_PAIRS_ARRAY,
            source@ == quote_pattern(pairs@, i as int),
    {
        let (left, right) = pairs[i];
        let ghost before = source@;
        if i > 0 {
            source.append("|");
        }
        source.append(left);
        source.append(QUOTED);
        source.append(right);
        assert(source@ =~= quote_pattern(pairs@, i + 1));
    }
    Pattern::shared(source.as_str())
}

/// Numbers in square brackets at the start of a text.
pub fn numbered_references() -> (pattern: Pattern)
    ensures
        pattern@ == NUMBERED_REFERENCE@,
{
    Pattern::shared(NUMBERED_REFERENCE)
}

/// Email addresses.
pub fn emails() -> (pattern: Pattern)
    ensures
        pattern@ == EMAIL@,
{
    Pattern::shared(EMAIL)
}

/// Empty lines.
pub fn consecutive_newlines() -> (pattern: Pattern)
    ensures
        pattern@ == CONSECUTIVE_NEWLINES@,
{
    Pattern::shared(CONSECUTIVE_NEWLINES)
}

/// What separates words.
pub fn word_separators() -> (pattern: Pattern)
    ensures
        pattern@ == WORD_SPLIT@,
{
    Pattern::shared(WORD_SPLIT)
}

/// What is said of matches: the first of them, where the last ends, and what lies around them.
pub proof fn law_matches_and_what_lies_around(text: Seq<char>, spans: Seq<Span>, k: int)
    ensures
        first_span(spans) is None <==> spans.len() == 0,
        spans.len() > 0 ==> first_span(spans) == Some(spans[0]),
        spans.len() == 0 ==> last_end(spans) == 0,
        spans.len() > 0 ==> last_end(spans) == spans[spans.len() - 1].1,
        pieces_between(text, spans).len() == spans.len() + 1,
        0 <= k <= spans.len() ==> pieces_between(text, spans)[k] == byte_slice(
            text,
            if k == 0 {
                0
            } else {
                spans[k - 1].1 as int
            },
            if k == spans.len() {
                byte_len(text) as int
            } else {
                spans[k].0 as int
            },
        ),
{
}

/// The patterns that all languages share, spelled out.
pub proof fn law_shared_patterns(class: Seq<char>)
    ensures
        class_pattern(class) == seq!['['] + class + seq![']', '+'],
        QUOTED@ == r"(\n|.)*?"@,
        PARENS@ == r"([\(（<{\[])(?:\\\1|.)*?[\)\]}）]"@,
        EMAIL@ == r"[A-Za-z0-9._%+-]+@[A-Za-z0-9.-]+\.[A-Z|a-z]{2,7}"@,
        CONSECUTIVE_NEWLINES@ == r"(\n{2,})"@,
        NUMBERED_REFERENCE@ == r"^(\[\d+])+"@,
        WORD_SPLIT@ == r"[\s\.]+"@,
{
    reveal_strlit("[");
    reveal_strlit("]+");
    assert("["@ =~= seq!['[']);
    assert("]+"@ =~= seq![']', '+']);
}

} // verus!
