use std::collections::HashMap;

use libtqsm::constants::{GLOBAL_SENTENCE_TERMINATORS, WORD_SEPARATORS};
use libtqsm::graphemes::cluster_table;
use libtqsm::language::{
    admit_boundary, are_in_order, chain_ranges, contains_any_form, decide_boundary,
    is_listed_abbreviation, is_listed_exclamation, next_or_here, normalize, place_boundary,
    starts_lower_or_digit, usual_lastword,
};
use libtqsm::languages::{builtin_languages, get_language};
use libtqsm::pattern::{
    emails, numbered_references, quotations, sentence_terminators, word_separators,
};
use libtqsm::rules::LanguageModel;
use libtqsm::split::{can_split, split_at_matches, RegexSplitInclusive};
use libtqsm::text::{contains_word, is_boundary, slice, str_len, trim_spaces};
use libtqsm::{
    segment_with, try_segment_with, DataLanguage, Fallback, GraphemeCursor, IncrementalSegmenter,
    Language, LanguageData, LanguageTables, Pattern, SegmentError,
};

fn words(list: &[&str]) -> Vec<String> {
    list.iter().map(|w| w.to_string()).collect()
}

fn language(code: &str, abbreviations: &[&str], exclamations: &[&str]) -> DataLanguage {
    DataLanguage::new(
        code.to_string(),
        LanguageData {
            abbreviation_char: ".".to_string(),
            abbreviations: words(abbreviations),
            exclamation_words: words(exclamations),
        },
    )
}

fn fallback(code: &str, targets: &[&str]) -> Fallback {
    Fallback { code: code.to_string(), targets: words(targets) }
}

#[test]
fn cursor_finds_the_nearest_offsets() {
    let cursor = GraphemeCursor::new(vec![0, 2, 5]);
    assert_eq!(cursor.next_grapheme(0), Some(2));
    assert_eq!(cursor.next_grapheme(2), Some(5));
    assert_eq!(cursor.next_grapheme(5), None);
    assert_eq!(cursor.prev_grapheme(0), None);
    assert_eq!(cursor.prev_grapheme(2), Some(0));
    assert_eq!(cursor.prev_grapheme(9), Some(5));
    assert_eq!(next_or_here(&cursor, 4), 5);
    assert_eq!(next_or_here(&cursor, 7), 7);
}

#[test]
fn clusters_run_to_the_next_offset() {
    let table = cluster_table("ae\u{301}o", &vec![0, 1, 4]);
    assert_eq!(table.len(), 3);
    assert_eq!(table[&1], "e\u{301}");
    assert_eq!(table[&4], "o");
}

#[test]
fn slices_count_bytes() {
    assert_eq!(str_len("aé"), 3);
    assert!(is_boundary("aé", 1));
    assert!(!is_boundary("aé", 2));
    assert!(is_boundary("aé", 3));
    assert!(!is_boundary("aé", 4));
    assert_eq!(slice("aéb", 1, 3), "é");
    assert!(contains_word(&words(&["a", "b"]), "b"));
    assert!(!contains_word(&words(&["a", "b"]), "B"));
}

#[test]
fn patterns_match_these() {
    assert_eq!(sentence_terminators().find_iter("a!? b。c"), vec![(1, 3), (5, 8)]);
    assert_eq!(numbered_references().find("[7][8] a"), Some((0, 6)));
    assert_eq!(numbered_references().find("a [7]"), None);
    assert_eq!(emails().find_iter("to a.b@c.org now"), vec![(3, 12)]);
    assert_eq!(quotations().find_iter("a \"b\nc\" «d»"), vec![(2, 7), (8, 13)]);
    assert_eq!(
        word_separators().split("one two\u{3000}three.fo"),
        vec!["one", "two", "three", "fo"]
    );
    assert_eq!(word_separators().split(" one "), vec!["", "one", ""]);
    assert_eq!(word_separators().split("one"), vec!["one"]);
    assert_eq!(word_separators().split(""), vec![""]);
    assert!(Pattern::new("(").is_none());
    assert_eq!(Pattern::new("b+").unwrap().find_iter("abba b"), vec![(1, 3), (5, 6)]);
}

/// All characters, with an `a` before each, and the span of each of them.
fn all_characters() -> (String, Vec<(char, (usize, usize))>) {
    let mut text = String::new();
    let mut spans = Vec::new();
    for c in '\0'..=char::MAX {
        text.push('a');
        spans.push((c, (text.len(), text.len() + c.len_utf8())));
        text.push(c);
    }
    (text, spans)
}

fn spans_of(spans: &[(char, (usize, usize))], chars: &str) -> Vec<(usize, usize)> {
    spans.iter().filter(|(c, _)| chars.contains(*c)).map(|(_, span)| *span).collect()
}

#[test]
fn word_separators_are_white_space_and_full_stops() {
    let (text, spans) = all_characters();
    let expected = spans_of(&spans, WORD_SEPARATORS);
    assert_eq!(expected.len(), 26);
    assert_eq!(word_separators().find_iter(&text), expected);
    assert_eq!(word_separators().find_iter("a. \t.b \u{85}\u{2003}c"), vec![(1, 5), (6, 12)]);
}

#[test]
fn terminators_are_these_characters() {
    let (text, spans) = all_characters();
    let expected = spans_of(&spans, GLOBAL_SENTENCE_TERMINATORS);
    assert_eq!(expected.len(), GLOBAL_SENTENCE_TERMINATORS.chars().count());
    assert_eq!(sentence_terminators().find_iter(&text), expected);
    assert_eq!(
        sentence_terminators().find_iter(GLOBAL_SENTENCE_TERMINATORS),
        vec![(0, GLOBAL_SENTENCE_TERMINATORS.len())]
    );
}

#[test]
fn split_hands_out_its_pieces() {
    let newlines = libtqsm::pattern::consecutive_newlines();
    let mut split = RegexSplitInclusive::new(&newlines, "one\n\n\ntwo");
    assert_eq!(split.next(), Some("one"));
    assert_eq!(split.next(), Some("\n\n\n"));
    assert_eq!(split.next(), Some("two"));
    assert_eq!(split.next(), None);
    assert_eq!(split.next(), None);
    assert_eq!(newlines.split_inclusive("one\n\n"), vec!["one", "\n\n"]);
    assert_eq!(newlines.split_inclusive(""), Vec::<&str>::new());
    assert!(can_split("ab", &vec![(1, 2)]));
    assert!(!can_split("abc", &vec![(1, 2), (2, 3)]));
    assert_eq!(split_at_matches("ab", vec![(0, 1)]), vec!["", "a", "b"]);
}

#[test]
fn what_follows_can_continue() {
    assert!(starts_lower_or_digit("abc"));
    assert!(starts_lower_or_digit("0"));
    assert!(!starts_lower_or_digit("Abc"));
    assert!(!starts_lower_or_digit("é"));
    assert!(!starts_lower_or_digit(""));
}

#[test]
fn abbreviations_in_four_forms() {
    assert_eq!(normalize("McX"), "mcX");
    assert_eq!(normalize("É\u{301}a"), "é\u{301}a");
    let list = words(&["a", "b"]);
    assert!(contains_any_form(&list, "x", "x", "b", "x"));
    assert!(!contains_any_form(&list, "x", "y", "z", "w"));

    let lang = language("xx", &["mcX", "dr", "NASA", "Mr"], &["Wow!"]);
    assert!(lang.is_abbreviation("see Mr", "", "."));
    assert!(lang.is_abbreviation("see McX", "", "."));
    assert!(lang.is_abbreviation("see DR", "", "."));
    assert!(lang.is_abbreviation("see nasa", "", "."));
    assert!(!lang.is_abbreviation("see MR", "", "."));
    assert!(!lang.is_abbreviation("see Mr", "", "!"));
    assert!(!lang.is_abbreviation("see Mr ", "", "."));
    assert_eq!(lang.get_lastword("see Mr"), Some("Mr"));
    assert!(lang.is_exclamation_word("oh Wow", ""));
    assert!(!lang.is_exclamation_word("oh wow", ""));
    assert!(is_listed_exclamation(Some("Wow"), &words(&["Wow!"])));
    assert!(!is_listed_exclamation(Some("Wow"), &words(&["Wow"])));
    assert!(!is_listed_exclamation(None, &words(&["!"])));
    assert!(is_listed_abbreviation(Some("DR"), ".", &words(&["dr"]), "."));
    assert!(!is_listed_abbreviation(None, ".", &words(&["dr"]), "."));
    assert_eq!(lang.language_code(), "xx");
    assert_eq!(lang.abbreviation_char(), ".");
    assert_eq!(lang.abbreviations().len(), 4);
    assert_eq!(lang.exclamation_words().len(), 1);
}

#[test]
fn one_terminator_at_a_time() {
    let cursor = GraphemeCursor::new((0..9).collect());
    assert_eq!(decide_boundary(&cursor, (1, 2), Some((0, 3)), true), Some((6, true)));
    assert_eq!(decide_boundary(&cursor, (1, 2), Some((0, 7)), false), Some((9, true)));
    assert_eq!(decide_boundary(&cursor, (1, 2), None, false), Some((2, false)));
    assert_eq!(decide_boundary(&cursor, (1, 2), None, true), None);

    let lang = language("xx", &["Mr"], &["Wow!"]);
    let text = "Mr. A. b.[1] C";
    let offsets: Vec<usize> = (0..text.len()).collect();
    let table = cluster_table(text, &offsets);
    let cursor = GraphemeCursor::new(offsets);
    assert_eq!(lang.find_boundary(text, &table, &cursor, (2, 3)), None);
    assert_eq!(lang.find_boundary(text, &table, &cursor, (5, 6)), Some((6, false)));
    assert_eq!(lang.find_boundary(text, &table, &cursor, (8, 9)), Some((13, true)));
    assert!(lang.can_find_boundary(text, &table, &cursor, (8, 9)));
    let nothing: HashMap<usize, &str> = HashMap::new();
    assert!(!lang.can_find_boundary(text, &nothing, &cursor, (5, 6)));
    assert!(lang.can_find_boundary(text, &nothing, &cursor, (8, 9)));
}

#[test]
fn boundaries_and_ranges() {
    let cursor = GraphemeCursor::new((0..12).collect());
    let ranges = vec![(2, 6), (3, 9)];
    assert_eq!(place_boundary(&ranges, &cursor, false, 2), Some(2));
    assert_eq!(place_boundary(&ranges, &cursor, false, 5), None);
    assert_eq!(place_boundary(&ranges, &cursor, true, 5), Some(6));
    assert_eq!(place_boundary(&ranges, &cursor, true, 4), None);
    assert_eq!(place_boundary(&ranges, &cursor, true, 8), Some(9));
    assert_eq!(place_boundary(&ranges, &cursor, true, 9), Some(9));
    let mut boundaries = vec![0];
    admit_boundary(&mut boundaries, &ranges, &cursor, false, None);
    admit_boundary(&mut boundaries, &ranges, &cursor, false, Some((5, false)));
    admit_boundary(&mut boundaries, &ranges, &cursor, false, Some((5, true)));
    admit_boundary(&mut boundaries, &ranges, &cursor, false, Some((10, false)));
    assert_eq!(boundaries, vec![0, 5, 10]);
    assert!(are_in_order("0123456789", &boundaries));
    assert!(!are_in_order("01234567", &boundaries));
    assert!(!are_in_order("0123456789", &vec![0, 5, 4]));
    assert!(!are_in_order("é", &vec![0, 1]));
    assert_eq!(
        chain_ranges(vec![(0, 1)], vec![(2, 3)], vec![(4, 5)]),
        vec![(0, 1), (2, 3), (4, 5)]
    );
}

#[test]
fn ranges_of_a_text() {
    let lang = language("xx", &[], &[]);
    let text = "(a) b@c.org \"d\"";
    assert_eq!(lang.get_skippable_ranges(text), vec![(12, 15), (4, 11), (0, 3)]);
    assert_eq!(lang.try_get_skippable_ranges(text).unwrap().len(), 3);
}

#[test]
fn a_hopeless_search_for_brackets_is_given_up() {
    let lang = language("xx", &[], &[]);
    let text = "(".repeat(3000);
    assert!(lang.try_get_skippable_ranges(&text).is_none());
    assert!(!lang.can_segment(&text));
    assert!(lang.try_segment(&text).is_none());
}

#[test]
fn sentences_can_end_after_the_quotation_mark() {
    let text = "He said \"Go.\" Then he left.";
    let mut lang = language("xx", &[], &[]);
    assert_eq!(lang.segment(text).len(), 1);
    lang.punctuation_between_quotes = true;
    assert_eq!(lang.segment(text), vec!["He said \"Go.\"", "Then he left."]);
}

#[test]
fn a_language_can_have_its_own_terminators() {
    let mut lang = language("xx", &[], &[]);
    lang.sentence_break = Pattern::new("[;]+").unwrap();
    assert_eq!(lang.segment("One. Two; Three"), vec!["One. Two;", "Three"]);
    assert_eq!(lang.paragraph_boundaries("One; Two").unwrap(), vec![0, 4]);
}

#[test]
fn codes_are_served() {
    let tables = builtin_languages();
    for (code, serving) in
        [("en", "en"), ("be", "ru"), ("gan", "zh"), ("hak", "zh"), ("xx", "en"), ("", "en")]
    {
        assert_eq!(get_language(&tables, code).unwrap().language_code(), serving);
    }
}

#[test]
fn later_entries_count() {
    let tables = LanguageTables {
        registry: vec![language("aa", &["x"], &[]), language("aa", &["y"], &[])],
        fallbacks: vec![fallback("bb", &[]), fallback("bb", &["cc", "aa"]), fallback("cc", &[])],
    };
    assert_eq!(get_language(&tables, "aa").unwrap().abbreviations(), &words(&["y"]));
    assert_eq!(get_language(&tables, "bb").unwrap().language_code(), "aa");
    assert!(get_language(&tables, "cc").is_none());
}

#[test]
fn circles_of_fallbacks_do_not_resolve() {
    let tables = LanguageTables {
        registry: vec![language("en", &[], &[])],
        fallbacks: vec![fallback("aa", &["bb"]), fallback("bb", &["aa"])],
    };
    assert!(!tables.can_get_language("aa"));
    assert!(tables.can_get_language("en"));
    assert!(tables.can_get_language("xx"));
    assert!(builtin_languages().can_get_language("gan"));
}

#[test]
fn long_chains_of_fallbacks_resolve() {
    let code = |i: usize| format!("x{}", i);
    let tables = LanguageTables {
        registry: vec![language("en", &[], &[])],
        fallbacks: (0..200).map(|i| fallback(&code(i), &[&code(i + 1)])).collect(),
    };
    assert!(tables.can_get_language("x0"));
    assert_eq!(get_language(&tables, "x0").unwrap().language_code(), "en");
    let without = LanguageTables { registry: vec![], fallbacks: tables.fallbacks };
    assert!(!without.can_get_language("x0"));
}

/// A language with some rules of its own.
struct Shouting {
    inner: DataLanguage,
}

impl Language for Shouting {
    fn model(&self) -> LanguageModel {
        unreachable!("a model exists only in proofs")
    }
    fn language_code(&self) -> &str {
        self.inner.language_code()
    }
    fn quote_pairs_regex(&self) -> &Pattern {
        self.inner.quote_pairs_regex()
    }
    fn numbered_reference_regex(&self) -> &Pattern {
        self.inner.numbered_reference_regex()
    }
    fn sentence_break_regex(&self) -> &Pattern {
        self.inner.sentence_break_regex()
    }
    fn is_punctuation_between_quotes(&self) -> bool {
        false
    }
    fn abbreviation_char(&self) -> &str {
        self.inner.abbreviation_char()
    }
    fn abbreviations(&self) -> &Vec<String> {
        self.inner.abbreviations()
    }
    fn exclamation_words(&self) -> &Vec<String> {
        self.inner.exclamation_words()
    }
    fn get_lastword<'a>(&self, text: &'a str) -> Option<&'a str> {
        usual_lastword(text)
    }
    fn continue_in_next_word(&self, text: &str) -> bool {
        text.starts_with('-')
    }
    fn is_abbreviation(&self, head: &str, _tail: &str, _separator: &str) -> bool {
        self.get_lastword(head) == Some("ABC")
    }
    fn is_exclamation_word(&self, _head: &str, tail: &str) -> bool {
        tail.starts_with(" HEY")
    }
}

#[test]
fn a_language_can_have_its_own_rules() {
    let text = "One.two. ABC! Three!-four! HEY. Five";
    let lang = language("xx", &[], &[]);
    assert_eq!(
        lang.segment(text),
        vec!["One.two.", "ABC!", "Three!", "-four!", "HEY.", "Five"]
    );
    let lang = Shouting { inner: lang };
    assert_eq!(lang.segment(text), vec!["One.", "two.", "ABC! Three!-four! HEY.", "Five"]);
}

#[test]
fn the_last_word_follows_the_last_separator() {
    let lang = language("xx", &[], &[]);
    for (text, word) in [("", ""), ("one", "one"), ("one. two", "two"), ("one\u{3000}", ""), ("a.b", "b")] {
        assert_eq!(lang.get_lastword(text), Some(word));
    }
}

#[test]
fn unsupported_languages_are_refused() {
    let tables =
        LanguageTables { registry: vec![language("aa", &[], &[])], fallbacks: vec![fallback("bb", &[])] };
    let error = segment_with(&tables, "bb", "One. Two.").unwrap_err();
    assert!(matches!(&error, SegmentError::UnsupportedLanguage(code) if code == "bb"));
    assert_eq!(error.message(), "Language `bb` not supported");
    assert!(try_segment_with(&tables, "bb", "One.").is_err());
    assert_eq!(segment_with(&tables, "aa", "One. Two.").unwrap(), vec!["One.", "Two."]);
    assert_eq!(
        try_segment_with(&tables, "aa", "One. Two.").unwrap().unwrap(),
        vec!["One.", "Two."]
    );
    assert!(IncrementalSegmenter::with_tables(tables, "bb").is_err());
}

#[test]
fn text_arrives_in_parts() {
    let mut segmenter = IncrementalSegmenter::new("en").unwrap();
    assert_eq!(segmenter.accept_text("One. T"), Some("One.".to_string()));
    assert_eq!(segmenter.accept_text("wo"), None);
    assert_eq!(segmenter.accept_text("."), Some("Two.".to_string()));
    // The space before the second sentence was trimmed, so its last byte stays behind.
    assert_eq!(segmenter.get_partial(), ".");
    assert_eq!(segmenter.accept_text("Last"), None);
    assert_eq!(segmenter.get_partial(), "Last");
    assert_eq!(segmenter.get_partial(), "");
}

#[test]
fn several_sentences_at_once_are_cut_off_by_length() {
    let mut segmenter = IncrementalSegmenter::new("en").unwrap();
    let text = "One two. Three four. Five";
    let complete = segmenter.accept_text(text).unwrap();
    assert_eq!(complete, "One two.Three four.");
    let partial = segmenter.get_partial();
    assert_eq!(partial, ". Five");
    assert_eq!(complete.len() + partial.len(), text.len());
}

#[test]
fn what_cannot_be_accepted_changes_nothing() {
    let mut segmenter = IncrementalSegmenter::new("en").unwrap();
    assert_eq!(segmenter.try_accept_text("a"), Some(None));
    assert_eq!(segmenter.try_accept_text("\n\nb\n\n"), None);
    // The complete part would end inside a character.
    assert_eq!(segmenter.try_accept_text(" word.  Then moré."), None);
    assert_eq!(segmenter.get_partial(), "a");
}

#[test]
fn all_that_is_accepted_is_handed_out_or_kept() {
    let parts = ["Über uns. Zwei ", "Sätze! Und", " noch\n\neiner. ", "Ende"];
    let mut segmenter = IncrementalSegmenter::new("en").unwrap();
    let mut handed_out = 0;
    for part in parts {
        handed_out += segmenter.accept_text(part).map_or(0, |complete| complete.len());
    }
    assert_eq!(handed_out + segmenter.get_partial().len(), parts.concat().len());
}

#[test]
fn only_spaces_are_trimmed() {
    for (text, trimmed) in [
        ("", ""),
        ("   ", ""),
        ("a", "a"),
        ("  a b ", "a b"),
        ("\n é\u{a0} ", "\n é\u{a0}"),
        (" \u{2020}", "\u{2020}"),
        ("😀  ", "😀"),
    ] {
        assert_eq!(trim_spaces(text), trimmed);
        assert_eq!(trim_spaces(text), text.trim_matches(' '));
    }
}

#[test]
fn ranges_are_not_empty_and_brackets_stay_on_a_line() {
    let lang = language("xx", &[], &[]);
    assert_eq!(lang.get_skippable_ranges("(a\nb) \"\" [c]"), vec![(6, 8), (9, 12)]);
    assert_eq!(lang.get_skippable_ranges("a@b ' ( \n )"), vec![]);
}

#[test]
fn what_is_not_complete_is_kept() {
    let mut segmenter = IncrementalSegmenter::new("fr").unwrap();
    for part in ["Il y a", " des mots", ", sans fin"] {
        assert_eq!(segmenter.accept_text(part), None);
    }
    assert_eq!(segmenter.get_partial(), "Il y a des mots, sans fin");
}

#[test]
fn only_an_empty_text_has_no_sentences() {
    let lang = language("xx", &[], &[]);
    assert_eq!(lang.segment(""), Vec::<String>::new());
    assert_eq!(lang.segment(" "), vec![""]);
    assert_eq!(lang.segment("."), vec!["."]);
}
