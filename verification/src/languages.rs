//! The languages that are known, and which of them serves for a language code.

use vstd::prelude::*;

use crate::constants::{
    ABBREVIATION_CHAR, AR_ABBREVIATIONS, EN_ABBREVIATIONS, EXCLAMATION_WORDS, FR_ABBREVIATIONS,
    GLOBAL_SENTENCE_TERMINATORS, LANGUAGE_FALLBACKS, LAST_RESORT, NUMBERED_REFERENCE,
    QUOTE_PAIRS_ARRAY, RU_ABBREVIATIONS, ZH_ABBREVIATIONS,
};
use crate::language::{
    is_listed_abbreviation, is_listed_exclamation, starts_lower_or_digit, usual_lastword, Language,
};
use crate::pattern::{
    class_pattern, numbered_references, quotations, quote_pattern, sentence_terminators, Pattern,
};
use crate::rules::{
    usual_abbreviation, usual_continuation, usual_exclamation, usual_last_word, LanguageModel,
};
use crate::split::str_views;

verus! {

/// The words that the rules of a language know.
pub struct LanguageData {
    pub abbreviation_char: String,
    pub abbreviations: Vec<String>,
    pub exclamation_words: Vec<String>,
}

/// A language that is given by its words and patterns.
pub struct DataLanguage {
    pub code: String,
    pub data: LanguageData,
    pub quote_pairs: Pattern,
    pub numbered_reference: Pattern,
    pub sentence_break: Pattern,
    pub punctuation_between_quotes: bool,
}

/// A language with the patterns that all languages share.
pub open spec fn shared_model(
    code: Seq<char>,
    abbreviation_char: Seq<char>,
    abbreviations: Seq<Seq<char>>,
    exclamation_words: Seq<Seq<char>>,
) -> LanguageModel {
    LanguageModel {
        code,
        quote_pairs: quote_pattern(QUOTE_PAIRS_ARRAY@, QUOTE_PAIRS_ARRAY@.len() as int),
        numbered_reference: NUMBERED_REFERENCE@,
        sentence_break: class_pattern(GLOBAL_SENTENCE_TERMINATORS@),
        abbreviation_char,
        abbreviations,
        exclamation_words,
        punctuation_between_quotes: false,
        last_word: usual_last_word(),
        continuation: usual_continuation(),
        abbreviation: usual_abbreviation(usual_last_word(), abbreviation_char, abbreviations),
        exclamation: usual_exclamation(usual_last_word(), exclamation_words),
    }
}

impl DataLanguage {
    /// A language with these words and the patterns that all languages share. Its sentences end
    /// with their terminators, not after a closing quotation mark.
    pub fn new(code: String, data: LanguageData) -> (language: DataLanguage)
        ensures
            language.model() == shared_model(
                code@,
                data.abbreviation_char@,
                data.abbreviations.deep_view(),
                data.exclamation_words.deep_view(),
            ),
            language.code == code,
            language.data == data,
            language.quote_pairs@ == quote_pattern(QUOTE_PAIRS_ARRAY@, QUOTE_PAIRS_ARRAY@.len() as int),
            language.numbered_reference@ == NUMBERED_REFERENCE@,
            language.sentence_break@ == class_pattern(GLOBAL_SENTENCE_TERMINATORS@),
            !language.punctuation_between_quotes,
    {
        DataLanguage {
            code,
            data,
            quote_pairs: quotations(),
            numbered_reference: numbered_references(),
            sentence_break: sentence_terminators(),
            punctuation_between_quotes: false,
        }
    }
}

impl Language for DataLanguage {
    open spec fn model(&self) -> LanguageModel {
        LanguageModel {
            code: self.code@,
            quote_pairs: self.quote_pairs@,
            numbered_reference: self.numbered_reference@,
            sentence_break: self.sentence_break@,
            abbreviation_char: self.data.abbreviation_char@,
            abbreviations: self.data.abbreviations.deep_view(),
            exclamation_words: self.data.exclamation_words.deep_view(),
            punctuation_between_quotes: self.punctuation_between_quotes,
            last_word: usual_last_word(),
            continuation: usual_continuation(),
            abbreviation: usual_abbreviation(
                usual_last_word(),
                self.data.abbreviation_char@,
                self.data.abbreviations.deep_view(),
            ),
            exclamation: usual_exclamation(
                usual_last_word(),
                self.data.exclamation_words.deep_view(),
            ),
        }
    }

    fn language_code(&self) -> (code: &str) {
        self.code.as_str()
    }

    fn quote_pairs_regex(&self) -> (pattern: &Pattern) {
        &self.quote_pairs
    }

    fn numbered_reference_regex(&self) -> (pattern: &Pattern) {
        &self.numbered_reference
    }

    fn sentence_break_regex(&self) -> (pattern: &Pattern) {
        &self.sentence_break
    }

    fn is_punctuation_between_quotes(&self) -> (answer: bool) {
        self.punctuation_between_quotes
    }

    fn abbreviation_char(&self) -> (mark: &str) {
        self.data.abbreviation_char.as_str()
    }

    fn abbreviations(&self) -> (words: &Vec<String>) {
        &self.data.abbreviations
    }

    fn exclamation_words(&self) -> (words: &Vec<String>) {
        &self.data.exclamation_words
    }

    fn get_lastword<'a>(&self, text: &'a str) -> (word: Option<&'a str>) {
        usual_lastword(text)
    }

    fn continue_in_next_word(&self, text_after_boundary: &str) -> (answer: bool) {
        starts_lower_or_digit(text_after_boundary)
    }

    fn is_abbreviation(&self, head: &str, _tail: &str, separator: &str) -> (answer: bool) {
        is_listed_abbreviation(
            self.get_lastword(head),
            self.abbreviation_char(),
            self.abbreviations(),
            separator,
        )
    }

    fn is_exclamation_word(&self, head: &str, _tail: &str) -> (answer: bool) {
        is_listed_exclamation(self.get_lastword(head), self.exclamation_words())
    }
}

/// A language code, and the codes of the languages that serve in its place.
pub struct Fallback {
    pub code: String,
    pub targets: Vec<String>,
}

/// The languages that have rules, and the fallbacks for the others.
///
/// Of two entries for one code the later one counts.
pub struct LanguageTables {
    pub registry: Vec<DataLanguage>,
    pub fallbacks: Vec<Fallback>,
}

/// What the tables hold.
pub struct TablesModel {
    pub registry: Seq<LanguageModel>,
    pub fallbacks: Seq<(Seq<char>, Seq<Seq<char>>)>,
}

impl View for LanguageTables {
    type V = TablesModel;

    open spec fn view(&self) -> TablesModel {
        TablesModel {
            registry: self.registry@.map_values(|language: DataLanguage| language.model()),
            fallbacks: self.fallbacks@.map_values(
                |fallback: Fallback| (fallback.code@, fallback.targets.deep_view()),
            ),
        }
    }
}

impl TablesModel {
    /// The index of the last of the first `n` languages that has this code.
    pub open spec fn registered(self, code: Seq<char>, n: int) -> Option<int>
        decreases n,
    {
        if n <= 0 {
            None
        } else if self.registry[n - 1].code == code {
            Some(n - 1)
        } else {
            self.registered(code, n - 1)
        }
    }

    /// The index of the language with this code.
    pub open spec fn language(self, code: Seq<char>) -> Option<int> {
        self.registered(code, self.registry.len() as int)
    }

    /// The fallbacks that the last of the first `n` entries with this code names; without an entry
    /// the last resort.
    pub open spec fn listed_targets(self, code: Seq<char>, n: int) -> Seq<Seq<char>>
        decreases n,
    {
        if n <= 0 {
            seq![LAST_RESORT@]
        } else if self.fallbacks[n - 1].0 == code {
            self.fallbacks[n - 1].1
        } else {
            self.listed_targets(code, n - 1)
        }
    }

    /// The codes that are tried in place of this one.
    pub open spec fn targets(self, code: Seq<char>) -> Seq<Seq<char>> {
        self.listed_targets(code, self.fallbacks.len() as int)
    }

    /// The index of the language that serves for this code, if one does; `None` on the outside
    /// where that takes a chain of more than `depth` codes to find out.
    pub open spec fn resolve(self, code: Seq<char>, depth: nat) -> Option<Option<int>>
        decreases depth, 0nat,
    {
        if depth == 0 {
            None
        } else if self.language(code) is Some {
            Some(self.language(code))
        } else {
            self.resolve_any(self.targets(code), (depth - 1) as nat)
        }
    }

    /// The index of the language that serves for the first of `codes` for which one does.
    pub open spec fn resolve_any(self, codes: Seq<Seq<char>>, depth: nat) -> Option<Option<int>>
        decreases depth, codes.len(),
    {
        if codes.len() == 0 {
            Some(None)
        } else {
            match self.resolve(codes[0], depth) {
                None => None,
                Some(Some(i)) => Some(Some(i)),
                Some(None) => self.resolve_any(codes.drop_first(), depth),
            }
        }
    }

    /// Whether the search for the language that serves for this code comes to an end.
    pub open spec fn settles(self, code: Seq<char>) -> bool {
        exists|depth: nat| #[trigger] self.resolve(code, depth) is Some
    }

    /// The index of the language that serves for this code, if one does.
    pub open spec fn serving(self, code: Seq<char>) -> Option<int> {
        self.resolve(code, choose|depth: nat| #[trigger] self.resolve(code, depth) is Some)->0
    }

    /// A search that has come to an end does not change when more depth is allowed.
    pub proof fn lemma_resolve_deeper(self, code: Seq<char>, low: nat, high: nat)
        requires
            low <= high,
            self.resolve(code, low) is Some,
        ensures
            self.resolve(code, high) == self.resolve(code, low),
        decreases low, 0nat,
    {
        if self.language(code) is None {
            self.lemma_resolve_any_deeper(
                self.targets(code),
                (low - 1) as nat,
                (high - 1) as nat,
            );
        }
    }

    proof fn lemma_resolve_any_deeper(self, codes: Seq<Seq<char>>, low: nat, high: nat)
        requires
            low <= high,
            self.resolve_any(codes, low) is Some,
        ensures
            self.resolve_any(codes, high) == self.resolve_any(codes, low),
        decreases low, codes.len(),
    {
        if codes.len() > 0 {
            self.lemma_resolve_deeper(codes[0], low, high);
            if self.resolve(codes[0], low) == Some(None::<int>) {
                self.lemma_resolve_any_deeper(codes.drop_first(), low, high);
            }
        }
    }

    /// Whatever depth a search comes to an end in, it finds the same language.
    pub proof fn lemma_serving(self, code: Seq<char>, depth: nat)
        requires
            self.resolve(code, depth) is Some,
        ensures
            self.settles(code),
            self.resolve(code, depth) == Some(self.serving(code)),
    {
        let other = choose|d: nat| #[trigger] self.resolve(code, d) is Some;
        if other <= depth {
            self.lemma_resolve_deeper(code, other, depth);
        } else {
            self.lemma_resolve_deeper(code, depth, other);
        }
    }

    /// Whether it takes a chain of exactly `depth` codes to find out which language serves.
    spec fn takes(self, code: Seq<char>, depth: nat) -> bool {
        &&& depth > 0
        &&& self.resolve(code, depth) is Some
        &&& self.resolve(code, (depth - 1) as nat) is None
    }

    proof fn lemma_takes_one_depth(self, code: Seq<char>, d: nat, e: nat)
        requires
            self.takes(code, d),
            self.takes(code, e),
        ensures
            d == e,
    {
        if d < e {
            self.lemma_resolve_deeper(code, d, (e - 1) as nat);
        } else if e < d {
            self.lemma_resolve_deeper(code, e, (d - 1) as nat);
        }
    }

    /// A search that comes to an end does so first in some depth.
    proof fn lemma_takes(self, code: Seq<char>, depth: nat) -> (least: nat)
        requires
            self.resolve(code, depth) is Some,
        ensures
            least <= depth,
            self.takes(code, least),
        decreases depth,
    {
        if self.resolve(code, (depth - 1) as nat) is Some {
            self.lemma_takes(code, (depth - 1) as nat)
        } else {
            depth
        }
    }

    /// Where a search among `codes` takes some depth, the search for one of them does.
    proof fn lemma_takes_any(self, codes: Seq<Seq<char>>, depth: nat) -> (code: Seq<char>)
        requires
            depth > 0,
            self.resolve_any(codes, depth) is Some,
            self.resolve_any(codes, (depth - 1) as nat) is None,
        ensures
            codes.contains(code),
            self.takes(code, depth),
        decreases codes.len(),
    {
        let first = codes[0];
        if self.resolve(first, (depth - 1) as nat) is None {
            assert(codes.contains(first));
            first
        } else {
            self.lemma_resolve_deeper(first, (depth - 1) as nat, depth);
            let rest = codes.drop_first();
            let code = self.lemma_takes_any(rest, depth);
            assert(codes[rest.index_of(code) + 1] == code);
            code
        }
    }

    /// A search that takes more than one code goes on with a fallback that takes one code less.
    proof fn lemma_takes_less(self, code: Seq<char>, depth: nat) -> (next: Seq<char>)
        requires
            self.takes(code, depth),
            depth > 1,
        ensures
            self.targets(code).contains(next),
            self.takes(next, (depth - 1) as nat),
    {
        self.lemma_takes_any(self.targets(code), (depth - 1) as nat)
    }

    /// The codes along a search but the last, each with the depth that it takes.
    proof fn lemma_chain(self, code: Seq<char>, depth: nat) -> (chain: Seq<Seq<char>>)
        requires
            self.takes(code, depth),
        ensures
            chain.len() == depth - 1,
            forall|i: int|
                0 <= i < chain.len() ==> self.takes(#[trigger] chain[i], (i + 2) as nat),
        decreases depth,
    {
        if depth == 1 {
            Seq::empty()
        } else {
            let next = self.lemma_takes_less(code, depth);
            let rest = self.lemma_chain(next, (depth - 1) as nat);
            rest.push(code)
        }
    }

    /// An entry for this code, or the number of entries if there is none.
    spec fn entry(self, code: Seq<char>) -> int {
        if exists|i: int| 0 <= i < self.fallbacks.len() && (#[trigger] self.fallbacks[i]).0 == code {
            choose|i: int| 0 <= i < self.fallbacks.len() && (#[trigger] self.fallbacks[i]).0 == code
        } else {
            self.fallbacks.len() as int
        }
    }

    /// Two codes that take different depths do not have the same entry, nor are both without one.
    proof fn lemma_entries_differ(self, a: Seq<char>, b: Seq<char>, d: nat, e: nat)
        requires
            self.takes(a, d),
            self.takes(b, e),
            d > 1,
            e > 1,
            d != e,
        ensures
            self.entry(a) != self.entry(b),
    {
        let n = self.fallbacks.len() as int;
        if self.entry(a) == self.entry(b) {
            if self.entry(a) < n {
                assert(a == b);
                self.lemma_takes_one_depth(a, d, e);
            } else {
                lemma_listed_targets(self, a, n);
                lemma_listed_targets(self, b, n);
                let next_a = self.lemma_takes_less(a, d);
                let next_b = self.lemma_takes_less(b, e);
                assert(next_a == LAST_RESORT@ && next_b == LAST_RESORT@);
                self.lemma_takes_one_depth(LAST_RESORT@, (d - 1) as nat, (e - 1) as nat);
            }
        }
    }

    /// What is found lies in the registry.
    proof fn lemma_registered(self, code: Seq<char>, n: int)
        requires
            0 <= n <= self.registry.len(),
        ensures
            self.registered(code, n) matches Some(i) ==> 0 <= i < n && self.registry[i].code
                == code,
            self.registered(code, n) is None <==> forall|i: int|
                0 <= i < n ==> (#[trigger] self.registry[i]).code != code,
        decreases n,
    {
        if n > 0 && self.registry[n - 1].code != code {
            self.lemma_registered(code, n - 1);
        }
    }

    proof fn lemma_resolve_bounds(self, code: Seq<char>, depth: nat)
        ensures
            self.resolve(code, depth) matches Some(Some(i)) ==> 0 <= i < self.registry.len(),
        decreases depth, 0nat,
    {
        if depth > 0 {
            self.lemma_registered(code, self.registry.len() as int);
            self.lemma_resolve_any_bounds(self.targets(code), (depth - 1) as nat);
        }
    }

    proof fn lemma_resolve_any_bounds(self, codes: Seq<Seq<char>>, depth: nat)
        ensures
            self.resolve_any(codes, depth) matches Some(Some(i)) ==> 0 <= i < self.registry.len(),
        decreases depth, codes.len(),
    {
        if codes.len() > 0 {
            self.lemma_resolve_bounds(codes[0], depth);
            self.lemma_resolve_any_bounds(codes.drop_first(), depth);
        }
    }
}

/// The position `i`, counted without bound.
pub open spec fn index_view(i: Option<usize>) -> Option<int> {
    match i {
        Some(i) => Some(i as int),
        None => None,
    }
}

impl LanguageTables {
    /// The index of the language with this code.
    fn find_language(&self, code: &str) -> (found: Option<usize>)
        ensures
            index_view(found) == self@.language(code@),
    {
        let key = code.to_string();
        let mut n: usize = self.registry.len();
        while n > 0
            invariant
                n <= self.registry@.len(),
                key@ == code@,
                self@.registered(code@, n as int) == self@.language(code@),
            decreases n,
        {
            assert(self@.registry[n - 1] == self.registry@[n - 1].model());
            if self.registry[n - 1].code == key {
                return Some(n - 1);
            }
            n = n - 1;
        }
        None
    }

    /// The index of the entry for the fallbacks of this code.
    fn find_fallback(&self, code: &str) -> (found: Option<usize>)
        ensures
            found matches Some(i) ==> i < self.fallbacks@.len() && self@.targets(code@)
                == self.fallbacks@[i as int].targets.deep_view(),
            found is None ==> self@.targets(code@) == seq![LAST_RESORT@],
    {
        let key = code.to_string();
        let mut n: usize = self.fallbacks.len();
        while n > 0
            invariant
                n <= self.fallbacks@.len(),
                key@ == code@,
                self@.listed_targets(code@, n as int) == self@.targets(code@),
            decreases n,
        {
            assert(self@.fallbacks[n - 1] == (
                self.fallbacks@[n - 1].code@,
                self.fallbacks@[n - 1].targets.deep_view(),
            ));
            if self.fallbacks[n - 1].code == key {
                return Some(n - 1);
            }
            n = n - 1;
        }
        None
    }

    /// The index of the language that serves for this code, if one does.
    fn resolve_language(&self, code: &str, Ghost(depth): Ghost<nat>) -> (found: Option<usize>)
        requires
            self@.resolve(code@, depth) is Some,
        ensures
            Some(index_view(found)) == self@.resolve(code@, depth),
        decreases depth, 0nat,
    {
        let registered = self.find_language(code);
        if registered.is_some() {
            return registered;
        }
        match self.find_fallback(code) {
            Some(entry) => {
                let targets = &self.fallbacks[entry].targets;
                let ghost codes = targets.deep_view();
                assert(codes.skip(0) =~= codes);
                for i in 0..targets.len()
                    invariant
                        depth > 0,
                        codes == targets.deep_view(),
                        self@.resolve(code@, depth) == self@.resolve_any(
                            codes,
                            (depth - 1) as nat,
                        ),
                        self@.resolve_any(codes, (depth - 1) as nat) is Some,
                        self@.resolve_any(codes.skip(i as int), (depth - 1) as nat)
                            == self@.resolve_any(codes, (depth - 1) as nat),
                {
                    assert(codes.skip(i as int)[0] == targets@[i as int]@);
                    assert(codes.skip(i as int).drop_first() =~= codes.skip(i + 1));
                    let found = self.resolve_language(
                        targets[i].as_str(),
                        Ghost((depth - 1) as nat),
                    );
                    if found.is_some() {
                        return found;
                    }
                }
                assert(codes.skip(codes.len() as int) =~= Seq::<Seq<char>>::empty());
                None
            },
            None => {
                let ghost codes = seq![LAST_RESORT@];
                proof {
                    assert(codes[0] == LAST_RESORT@);
                    assert(codes.drop_first() =~= Seq::<Seq<char>>::empty());
                    assert(self@.resolve_any(codes.drop_first(), (depth - 1) as nat) == Some(
                        None::<int>,
                    ));
                }
                self.resolve_language(LAST_RESORT, Ghost((depth - 1) as nat))
            },
        }
    }
}

impl LanguageTables {
    /// Whether the search for the language that serves for this code comes to an end, which it does
    /// not where fallbacks run in a circle.
    pub fn can_get_language(&self, code: &str) -> (answer: bool)
        ensures
            answer == self@.settles(code@),
    {
        proof {
            law_searches_are_short(self@, code@);
        }
        self.try_resolve(code, self.fallbacks.len() as u128 + 2).is_some()
    }

    /// The index of the language that serves for this code, if one does; `None` on the outside
    /// where that takes a chain of more than `depth` codes to find out.
    fn try_resolve(&self, code: &str, depth: u128) -> (found: Option<Option<usize>>)
        ensures
            found is Some <==> self@.resolve(code@, depth as nat) is Some,
            found matches Some(i) ==> self@.resolve(code@, depth as nat) == Some(index_view(i)),
        decreases depth, 0nat,
    {
        if depth == 0 {
            return None;
        }
        let registered = self.find_language(code);
        if registered.is_some() {
            return Some(registered);
        }
        let ghost codes = self@.targets(code@);
        let ghost rest = (depth - 1) as nat;
        match self.find_fallback(code) {
            Some(entry) => {
                let targets = &self.fallbacks[entry].targets;
                assert(codes.skip(0) =~= codes);
                for i in 0..targets.len()
                    invariant
                        depth > 0,
                        rest == depth - 1,
                        codes == targets.deep_view(),
                        self@.resolve(code@, depth as nat) == self@.resolve_any(codes, rest),
                        self@.resolve_any(codes.skip(i as int), rest) == self@.resolve_any(
                            codes,
                            rest,
                        ),
                {
                    assert(codes.skip(i as int)[0] == targets@[i as int]@);
                    assert(codes.skip(i as int).drop_first() =~= codes.skip(i + 1));
                    match self.try_resolve(targets[i].as_str(), depth - 1) {
                        None => return None,
                        Some(Some(found)) => return Some(Some(found)),
                        Some(None) => {},
                    }
                }
                assert(codes.skip(codes.len() as int) =~= Seq::<Seq<char>>::empty());
                Some(None)
            },
            None => {
                proof {
                    assert(codes[0] == LAST_RESORT@);
                    assert(codes.drop_first() =~= Seq::<Seq<char>>::empty());
                    assert(self@.resolve_any(codes.drop_first(), rest) == Some(None::<int>));
                }
                self.try_resolve(LAST_RESORT, depth - 1)
            },
        }
    }
}

/// The language that serves for the code: the one that has it, or else the first that serves for
/// one of the fallbacks.
pub fn get_language<'a>(tables: &'a LanguageTables, lang_code: &str) -> (language: Option<
    &'a DataLanguage,
>)
    requires
        tables@.settles(lang_code@),
    ensures
        language is Some <==> tables@.serving(lang_code@) is Some,
        language is Some ==> *language->0
            == tables.registry@[tables@.serving(lang_code@)->0],
        language is Some ==> language->0.model()
            == tables@.registry[tables@.serving(lang_code@)->0],
{
    let ghost depth = choose|depth: nat| #[trigger] tables@.resolve(lang_code@, depth) is Some;
    proof {
        tables@.lemma_resolve_bounds(lang_code@, depth);
    }
    match tables.resolve_language(lang_code, Ghost(depth)) {
        Some(i) => Some(&tables.registry[i]),
        None => None,
    }
}

impl LanguageTables {
    /// The language that serves for the code, taken out of the tables.
    pub fn take_language(self, lang_code: &str) -> (language: Option<DataLanguage>)
        requires
            self@.settles(lang_code@),
        ensures
            language is Some <==> self@.serving(lang_code@) is Some,
            language is Some ==> language->0.model() == self@.registry[self@.serving(
                lang_code@,
            )->0],
    {
        let ghost depth = choose|depth: nat| #[trigger] self@.resolve(lang_code@, depth) is Some;
        proof {
            self@.lemma_resolve_bounds(lang_code@, depth);
        }
        match self.resolve_language(lang_code, Ghost(depth)) {
            Some(i) => {
                let mut registry = self.registry;
                Some(registry.swap_remove(i))
            },
            None => None,
        }
    }
}

/// A language with the patterns and names that all languages share.
pub open spec fn builtin_model(code: Seq<char>, abbreviations: Seq<&str>) -> LanguageModel {
    shared_model(
        code,
        ABBREVIATION_CHAR@,
        str_views(abbreviations),
        str_views(EXCLAMATION_WORDS@),
    )
}

/// The languages and fallbacks that this library brings along.
pub open spec fn builtin_tables() -> TablesModel {
    TablesModel {
        registry: seq![
            builtin_model("ar"@, AR_ABBREVIATIONS@),
            builtin_model("en"@, EN_ABBREVIATIONS@),
            builtin_model("fr"@, FR_ABBREVIATIONS@),
            builtin_model("ru"@, RU_ABBREVIATIONS@),
            builtin_model("zh"@, ZH_ABBREVIATIONS@),
        ],
        fallbacks: LANGUAGE_FALLBACKS@.map_values(
            |fallback: (&str, [&str; 2])| (fallback.0@, str_views(fallback.1@)),
        ),
    }
}

/// The same words, each as a string of its own.
fn string_list(words: &[&str]) -> (list: Vec<String>)
    ensures
        list.deep_view() == str_views(words@),
{
    let mut list: Vec<String> = Vec::new();
    for i in 0..words.len()
        invariant
            list@.len() == i,
            forall|j: int| 0 <= j < i ==> (#[trigger] list@[j])@ == words@[j]@,
    {
        list.push(words[i].to_string());
    }
    assert(list.deep_view() =~= str_views(words@));
    list
}

/// A language with the patterns and names that all languages share.
fn builtin_language(code: &str, abbreviations: &[&str]) -> (language: DataLanguage)
    ensures
        language.model() == builtin_model(code@, abbreviations@),
{
    DataLanguage::new(
        code.to_string(),
        LanguageData {
            abbreviation_char: ABBREVIATION_CHAR.to_string(),
            abbreviations: string_list(abbreviations),
            exclamation_words: string_list(&EXCLAMATION_WORDS),
        },
    )
}

/// The languages and fallbacks that this library brings along.
pub fn builtin_languages() -> (tables: LanguageTables)
    ensures
        tables@ == builtin_tables(),
{
    let mut registry: Vec<DataLanguage> = Vec::new();
    registry.push(builtin_language("ar", &AR_ABBREVIATIONS));
    registry.push(builtin_language("en", &EN_ABBREVIATIONS));
    registry.push(builtin_language("fr", &FR_ABBREVIATIONS));
    registry.push(builtin_language("ru", &RU_ABBREVIATIONS));
    registry.push(builtin_language("zh", &ZH_ABBREVIATIONS));
    let entries = LANGUAGE_FALLBACKS;
    let mut fallbacks: Vec<Fallback> = Vec::new();
    for i in 0..entries.len()
        invariant
            fallbacks@.len() == i,
            forall|j: int|
                #![trigger fallbacks@[j]]
                0 <= j < i ==> fallbacks@[j].code@ == entries@[j].0@
                    && fallbacks@[j].targets.deep_view() == str_views(entries@[j].1@),
    {
        let (code, targets) = entries[i];
        fallbacks.push(Fallback { code: code.to_string(), targets: string_list(&targets) });
    }
    let tables = LanguageTables { registry, fallbacks };
    proof {
        assert(tables@.registry =~= builtin_tables().registry);
        assert(tables@.fallbacks =~= builtin_tables().fallbacks);
    }
    tables
}

/// A code of a language serves for itself.
pub proof fn law_registered_code_serves_itself(tables: TablesModel, code: Seq<char>)
    requires
        tables.language(code) is Some,
    ensures
        tables.settles(code),
        tables.serving(code) == tables.language(code),
        tables.registry[tables.serving(code)->0].code == code,
{
    tables.lemma_registered(code, tables.registry.len() as int);
    tables.lemma_serving(code, 1);
}

/// For a code that the tables do not know the last resort serves.
pub proof fn law_unknown_code_is_served_by_last_resort(tables: TablesModel, code: Seq<char>)
    requires
        tables.language(code) is None,
        forall|i: int| 0 <= i < tables.fallbacks.len() ==> (#[trigger] tables.fallbacks[i]).0 != code,
        tables.settles(LAST_RESORT@),
    ensures
        tables.settles(code),
        tables.serving(code) == tables.serving(LAST_RESORT@),
{
    lemma_listed_targets(tables, code, tables.fallbacks.len() as int);
    let depth = choose|depth: nat| #[trigger] tables.resolve(LAST_RESORT@, depth) is Some;
    let codes = seq![LAST_RESORT@];
    assert(codes[0] == LAST_RESORT@);
    assert(codes.drop_first() =~= Seq::<Seq<char>>::empty());
    assert(tables.resolve_any(codes.drop_first(), depth) == Some(None::<int>));
    assert(tables.resolve_any(codes, depth) == tables.resolve(LAST_RESORT@, depth));
    assert(tables.resolve(code, depth + 1) == tables.resolve(LAST_RESORT@, depth));
    tables.lemma_serving(code, depth + 1);
}

/// Where the first fallback of a code without rules is served, the same language serves for the
/// code.
pub proof fn law_first_fallback_serves(tables: TablesModel, code: Seq<char>)
    requires
        tables.language(code) is None,
        tables.targets(code).len() > 0,
        tables.settles(tables.targets(code)[0]),
        tables.serving(tables.targets(code)[0]) is Some,
    ensures
        tables.settles(code),
        tables.serving(code) == tables.serving(tables.targets(code)[0]),
{
    let first = tables.targets(code)[0];
    let depth = choose|depth: nat| #[trigger] tables.resolve(first, depth) is Some;
    assert(tables.resolve_any(tables.targets(code), depth) == tables.resolve(first, depth));
    assert(tables.resolve(code, depth + 1) == tables.resolve(first, depth));
    tables.lemma_serving(code, depth + 1);
}

/// The targets of a code are those of an entry for it, or the last resort where there is none.
proof fn lemma_listed_targets(tables: TablesModel, code: Seq<char>, n: int)
    requires
        0 <= n <= tables.fallbacks.len(),
    ensures
        tables.listed_targets(code, n) == seq![LAST_RESORT@] || exists|i: int|
            0 <= i < n && (#[trigger] tables.fallbacks[i]).0 == code && tables.fallbacks[i].1
                == tables.listed_targets(code, n),
        (forall|i: int| 0 <= i < n ==> (#[trigger] tables.fallbacks[i]).0 != code)
            ==> tables.listed_targets(code, n) == seq![LAST_RESORT@],
    decreases n,
{
    if n > 0 && tables.fallbacks[n - 1].0 != code {
        lemma_listed_targets(tables, code, n - 1);
    }
}

/// A search that comes to an end takes at most two codes more than there are fallbacks.
pub proof fn law_searches_are_short(tables: TablesModel, code: Seq<char>)
    ensures
        tables.settles(code) <==> tables.resolve(code, tables.fallbacks.len() + 2) is Some,
{
    let n = tables.fallbacks.len();
    if tables.settles(code) {
        let depth = choose|depth: nat| #[trigger] tables.resolve(code, depth) is Some;
        let least = tables.lemma_takes(code, depth);
        let chain = tables.lemma_chain(code, least);
        let entries = Seq::new(chain.len(), |i: int| tables.entry(chain[i]));
        assert(entries.no_duplicates()) by {
            assert forall|i: int, j: int|
                0 <= i < entries.len() && 0 <= j < entries.len() && i != j implies entries[i]
                != entries[j] by {
                tables.lemma_entries_differ(chain[i], chain[j], (i + 2) as nat, (j + 2) as nat);
            }
        }
        entries.unique_seq_to_set();
        let all = vstd::set_lib::set_int_range(0, n as int + 1);
        vstd::set_lib::lemma_int_range(0, n as int + 1);
        assert(entries.to_set().subset_of(all)) by {
            assert forall|e: int| #[trigger] entries.to_set().contains(e) implies all.contains(e) by {
                let i = entries.index_of(e);
                assert(entries[i] == tables.entry(chain[i]));
            }
        }
        vstd::set_lib::lemma_len_subset(entries.to_set(), all);
        tables.lemma_resolve_deeper(code, least, n + 2);
    }
}

/// Whether no language of the registry has this code.
pub open spec fn is_unregistered(tables: TablesModel, code: Seq<char>) -> bool {
    forall|j: int| 0 <= j < tables.registry.len() ==> (#[trigger] tables.registry[j]).code != code
}

/// Whether the entry with index `e` is the last of the fallbacks for this code.
pub open spec fn is_last_entry(tables: TablesModel, code: Seq<char>, e: int) -> bool {
    &&& 0 <= e < tables.fallbacks.len()
    &&& tables.fallbacks[e].0 == code
    &&& forall|j: int|
        e < j < tables.fallbacks.len() ==> (#[trigger] tables.fallbacks[j]).0 != code
}

proof fn lemma_last_registered(tables: TablesModel, code: Seq<char>, i: int, n: int)
    requires
        0 <= i < n <= tables.registry.len(),
        tables.registry[i].code == code,
        forall|j: int| i < j < n ==> (#[trigger] tables.registry[j]).code != code,
    ensures
        tables.registered(code, n) == Some(i),
    decreases n,
{
    if i < n - 1 {
        lemma_last_registered(tables, code, i, n - 1);
    }
}

proof fn lemma_last_entry(tables: TablesModel, code: Seq<char>, e: int, n: int)
    requires
        0 <= e < n <= tables.fallbacks.len(),
        tables.fallbacks[e].0 == code,
        forall|j: int| e < j < n ==> (#[trigger] tables.fallbacks[j]).0 != code,
    ensures
        tables.listed_targets(code, n) == tables.fallbacks[e].1,
    decreases n,
{
    if e < n - 1 {
        lemma_last_entry(tables, code, e, n - 1);
    }
}

/// The last language of the registry that has a code serves for it, and its rules are the rules for
/// the code.
pub proof fn law_last_language_with_a_code_serves(tables: TablesModel, code: Seq<char>, i: int)
    requires
        0 <= i < tables.registry.len(),
        tables.registry[i].code == code,
        forall|j: int|
            i < j < tables.registry.len() ==> (#[trigger] tables.registry[j]).code != code,
    ensures
        tables.settles(code),
        tables.serving(code) == Some(i),
        tables.rules(code) == tables.registry[i],
{
    lemma_last_registered(tables, code, i, tables.registry.len() as int);
    law_registered_code_serves_itself(tables, code);
}

/// A depth in which the searches for the first `n` of `codes` all come to an end.
proof fn lemma_common_depth(tables: TablesModel, codes: Seq<Seq<char>>, n: int) -> (depth: nat)
    requires
        0 <= n <= codes.len(),
        forall|j: int| 0 <= j < n ==> tables.settles(#[trigger] codes[j]),
    ensures
        forall|j: int|
            0 <= j < n ==> tables.resolve(#[trigger] codes[j], depth) == Some(
                tables.serving(codes[j]),
            ),
    decreases n,
{
    if n == 0 {
        0
    } else {
        let low = lemma_common_depth(tables, codes, n - 1);
        assert(tables.settles(codes[n - 1]));
        let last = choose|d: nat| #[trigger] tables.resolve(codes[n - 1], d) is Some;
        let depth = low + last;
        tables.lemma_resolve_deeper(codes[n - 1], last, depth);
        tables.lemma_serving(codes[n - 1], depth);
        assert forall|j: int| 0 <= j < n implies tables.resolve(#[trigger] codes[j], depth) == Some(
            tables.serving(codes[j]),
        ) by {
            if j < n - 1 {
                tables.lemma_resolve_deeper(codes[j], low, depth);
            }
        }
        depth
    }
}

proof fn lemma_resolve_any_first(tables: TablesModel, codes: Seq<Seq<char>>, i: int, depth: nat)
    requires
        0 <= i <= codes.len(),
        forall|j: int|
            0 <= j < i ==> tables.resolve(#[trigger] codes[j], depth) == Some(None::<int>),
        i < codes.len() ==> tables.resolve(codes[i], depth) matches Some(Some(_)),
    ensures
        tables.resolve_any(codes, depth) == if i < codes.len() {
            tables.resolve(codes[i], depth)
        } else {
            Some(None::<int>)
        },
    decreases i,
{
    if i > 0 {
        let rest = codes.drop_first();
        assert(tables.resolve(codes[0], depth) == Some(None::<int>));
        assert forall|j: int| 0 <= j < i - 1 implies tables.resolve(#[trigger] rest[j], depth)
            == Some(None::<int>) by {
            assert(rest[j] == codes[j + 1]);
        }
        if i < codes.len() {
            assert(rest[i - 1] == codes[i]);
        }
        lemma_resolve_any_first(tables, rest, i - 1, depth);
    }
}

/// For a code without rules the fallbacks of the last entry for it are tried in order: the first of
/// them that is served decides.
pub proof fn law_fallbacks_are_tried_in_order(tables: TablesModel, code: Seq<char>, e: int, i: int)
    requires
        is_unregistered(tables, code),
        is_last_entry(tables, code, e),
        0 <= i < tables.fallbacks[e].1.len(),
        forall|j: int|
            0 <= j <= i ==> tables.settles(#[trigger] tables.fallbacks[e].1[j]),
        forall|j: int|
            0 <= j < i ==> tables.serving(#[trigger] tables.fallbacks[e].1[j]) is None,
        tables.serving(tables.fallbacks[e].1[i]) is Some,
    ensures
        tables.settles(code),
        tables.serving(code) == tables.serving(tables.fallbacks[e].1[i]),
        tables.rules(code) == tables.rules(tables.fallbacks[e].1[i]),
{
    let codes = tables.fallbacks[e].1;
    tables.lemma_registered(code, tables.registry.len() as int);
    lemma_last_entry(tables, code, e, tables.fallbacks.len() as int);
    let depth = lemma_common_depth(tables, codes, i + 1);
    assert forall|j: int| 0 <= j < i implies tables.resolve(#[trigger] codes[j], depth) == Some(
        None::<int>,
    ) by {
        assert(tables.serving(codes[j]) is None);
    }
    lemma_resolve_any_first(tables, codes, i, depth);
    assert(tables.resolve(code, depth + 1) == tables.resolve(codes[i], depth));
    tables.lemma_serving(code, depth + 1);
}

/// A code without rules is not served where none of the fallbacks of the last entry for it is.
pub proof fn law_without_a_served_fallback_none_serves(
    tables: TablesModel,
    code: Seq<char>,
    e: int,
)
    requires
        is_unregistered(tables, code),
        is_last_entry(tables, code, e),
        forall|j: int|
            0 <= j < tables.fallbacks[e].1.len() ==> tables.settles(
                #[trigger] tables.fallbacks[e].1[j],
            ) && tables.serving(tables.fallbacks[e].1[j]) is None,
    ensures
        tables.settles(code),
        tables.serving(code) is None,
{
    let codes = tables.fallbacks[e].1;
    let n = codes.len() as int;
    tables.lemma_registered(code, tables.registry.len() as int);
    lemma_last_entry(tables, code, e, tables.fallbacks.len() as int);
    let depth = lemma_common_depth(tables, codes, n);
    assert forall|j: int| 0 <= j < n implies tables.resolve(#[trigger] codes[j], depth) == Some(
        None::<int>,
    ) by {
        assert(tables.serving(codes[j]) is None);
    }
    lemma_resolve_any_first(tables, codes, n, depth);
    assert(tables.resolve(code, depth + 1) == Some(None::<int>));
    tables.lemma_serving(code, depth + 1);
}

/// A code that has neither rules nor an entry is served as the last resort is.
pub proof fn law_a_code_without_an_entry_is_served_by_last_resort(
    tables: TablesModel,
    code: Seq<char>,
)
    requires
        is_unregistered(tables, code),
        forall|i: int|
            0 <= i < tables.fallbacks.len() ==> (#[trigger] tables.fallbacks[i]).0 != code,
        tables.settles("en"@),
    ensures
        tables.settles(code),
        tables.serving(code) == tables.serving("en"@),
        tables.rules(code) == tables.rules("en"@),
{
    tables.lemma_registered(code, tables.registry.len() as int);
    law_unknown_code_is_served_by_last_resort(tables, code);
}

/// The position of a language that is found, and that none is, are told as they are.
pub proof fn law_index_view(i: usize)
    ensures
        index_view(Some(i)) == Some(i as int),
        index_view(None) is None,
{
}

/// The fallbacks that this library brings along are those listed, each with its two targets in
/// order.
pub proof fn law_builtin_fallbacks_are_those_listed(i: int)
    ensures
        builtin_tables().fallbacks.len() == LANGUAGE_FALLBACKS@.len(),
        0 <= i < LANGUAGE_FALLBACKS@.len() ==> {
            let (code, targets) = builtin_tables().fallbacks[i];
            &&& code == LANGUAGE_FALLBACKS@[i].0@
            &&& targets.len() == 2
            &&& targets[0] == LANGUAGE_FALLBACKS@[i].1@[0]@
            &&& targets[1] == LANGUAGE_FALLBACKS@[i].1@[1]@
        },
{
}

/// Whether a language has this code and exactly these abbreviations, in order, with the full stop
/// behind them and the names with an exclamation mark that all languages share.
pub open spec fn has_words(model: LanguageModel, code: Seq<char>, words: Seq<&str>) -> bool {
    &&& model.code == code
    &&& model.abbreviation_char == "."@
    &&& model.abbreviations.len() == words.len()
    &&& forall|i: int|
        0 <= i < words.len() ==> #[trigger] model.abbreviations[i] == words[i]@
    &&& model.exclamation_words.len() == EXCLAMATION_WORDS@.len()
    &&& forall|i: int|
        0 <= i < EXCLAMATION_WORDS@.len() ==> #[trigger] model.exclamation_words[i]
            == EXCLAMATION_WORDS@[i]@
}

/// Each of the languages that this library brings along serves for its own code, with its words.
pub proof fn law_builtin_languages_have_their_words()
    ensures
        has_words(builtin_tables().rules("ar"@), "ar"@, AR_ABBREVIATIONS@),
        has_words(builtin_tables().rules("en"@), "en"@, EN_ABBREVIATIONS@),
        has_words(builtin_tables().rules("fr"@), "fr"@, FR_ABBREVIATIONS@),
        has_words(builtin_tables().rules("ru"@), "ru"@, RU_ABBREVIATIONS@),
        has_words(builtin_tables().rules("zh"@), "zh"@, ZH_ABBREVIATIONS@),
{
    let tables = builtin_tables();
    reveal_strlit("ar");
    reveal_strlit("en");
    reveal_strlit("fr");
    reveal_strlit("ru");
    reveal_strlit("zh");
    assert("ar"@[0] == 'a' && "en"@[0] == 'e' && "fr"@[0] == 'f' && "ru"@[0] == 'r' && "zh"@[0]
        == 'z');
    law_last_language_with_a_code_serves(tables, "ar"@, 0);
    law_last_language_with_a_code_serves(tables, "en"@, 1);
    law_last_language_with_a_code_serves(tables, "fr"@, 2);
    law_last_language_with_a_code_serves(tables, "ru"@, 3);
    law_last_language_with_a_code_serves(tables, "zh"@, 4);
}

/// Each of the codes in the registry of this library is the code of a language.
proof fn lemma_builtin_codes(code: Seq<char>)
    requires
        code == "ar"@ || code == "en"@ || code == "fr"@ || code == "ru"@ || code == "zh"@,
    ensures
        builtin_tables().language(code) is Some,
{
    let tables = builtin_tables();
    tables.lemma_registered(code, 5);
    assert(tables.registry[0].code == "ar"@);
    assert(tables.registry[1].code == "en"@);
    assert(tables.registry[2].code == "fr"@);
    assert(tables.registry[3].code == "ru"@);
    assert(tables.registry[4].code == "zh"@);
}

/// A code is served if it has rules, or if its first fallback has.
proof fn lemma_builtin_served(code: Seq<char>)
    requires
        builtin_tables().language(code) is None ==> builtin_tables().targets(code).len() > 0
            && builtin_tables().language(builtin_tables().targets(code)[0]) is Some,
    ensures
        builtin_tables().settles(code),
        builtin_tables().serving(code) is Some,
{
    let tables = builtin_tables();
    if tables.language(code) is Some {
        law_registered_code_serves_itself(tables, code);
    } else {
        law_registered_code_serves_itself(tables, tables.targets(code)[0]);
        law_first_fallback_serves(tables, code);
    }
}

/// With the languages that this library brings along, some language serves for every code.
pub proof fn law_every_code_is_served(code: Seq<char>)
    ensures
        builtin_tables().settles(code),
        builtin_tables().serving(code) is Some,
        0 <= builtin_tables().serving(code)->0 < builtin_tables().registry.len(),
{
    let tables = builtin_tables();
    let depth = choose|depth: nat| #[trigger] tables.resolve(code, depth) is Some;
    tables.lemma_resolve_bounds(code, depth);
    let targets = tables.targets(code);
    lemma_builtin_codes("ar"@);
    lemma_builtin_codes("en"@);
    lemma_builtin_codes("fr"@);
    lemma_builtin_codes("ru"@);
    lemma_builtin_codes("zh"@);
    lemma_listed_targets(tables, code, tables.fallbacks.len() as int);
    assert(tables.fallbacks.last().0 == "yue"@);
    assert(tables.targets("yue"@)[0] == "zh"@);
    lemma_builtin_served("yue"@);
    if targets == seq![LAST_RESORT@] {
        assert(targets[0] == "en"@);
        lemma_builtin_served(code);
    } else {
        let i = choose|i: int|
            0 <= i < tables.fallbacks.len() && (#[trigger] tables.fallbacks[i]).0 == code
                && tables.fallbacks[i].1 == targets;
        let first = targets[0];
        assert(first == "ar"@ || first == "ru"@ || first == "fr"@ || first == "zh"@ || first
            == "yue"@);
        if first == "yue"@ {
            if tables.language(code) is Some {
                law_registered_code_serves_itself(tables, code);
            } else {
                law_first_fallback_serves(tables, code);
            }
        } else {
            lemma_builtin_served(code);
        }
    }
}

} // verus!
