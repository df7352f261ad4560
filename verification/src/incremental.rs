//! Segmentation of text that arrives in parts.

use vstd::prelude::*;

use crate::language::Language;
use crate::languages::{builtin_languages, builtin_tables, DataLanguage, LanguageTables};
use crate::rules::LanguageModel;
use crate::segmentation::SegmentError;
use crate::text::{at_boundary, byte_len, byte_suffix, concat, is_boundary, slice, str_len};

verus! {

/// What is complete of the text whose sentences are `segments`: all but the last of them.
pub open spec fn completed(segments: Seq<Seq<char>>) -> Option<Seq<char>> {
    if segments.len() > 1 {
        Some(concat(segments.drop_last()))
    } else {
        None
    }
}

/// What `buffer` is segmented with, so that a terminator at its end has something after it.
pub open spec fn probe(buffer: Seq<char>) -> Seq<char> {
    buffer + " 1"@
}

impl LanguageModel {
    /// What is complete of `buffer`.
    pub open spec fn complete_part(self, buffer: Seq<char>) -> Option<Seq<char>> {
        completed(self.sentences(probe(buffer)))
    }

    /// What is left of `buffer`: as many bytes as its complete part has are cut off.
    pub open spec fn open_part(self, buffer: Seq<char>) -> Seq<char> {
        match self.complete_part(buffer) {
            Some(complete) => byte_suffix(buffer, byte_len(complete) as int),
            None => buffer,
        }
    }

    /// Whether `buffer` can be cut into sentences, and its complete part off it.
    pub open spec fn buffer_defined(self, buffer: Seq<char>) -> bool {
        &&& self.text_defined(probe(buffer))
        &&& self.complete_part(buffer) matches Some(complete) ==> at_boundary(
            buffer,
            byte_len(complete) as int,
        )
    }
}

/// `segments`, one after another, without the last.
pub fn join_completed(segments: &Vec<String>) -> (complete: Option<String>)
    ensures
        complete is Some <==> completed(segments.deep_view()) is Some,
        complete is Some ==> complete->0@ == completed(segments.deep_view())->0,
{
    if segments.len() <= 1 {
        return None;
    }
    let ghost views = segments.deep_view();
    let mut complete = String::new();
    assert(views.take(0) =~= Seq::<Seq<char>>::empty());
    let last = segments.len() - 1;
    for i in 0..last
        invariant
            views == segments.deep_view(),
            last < segments@.len(),
            complete@ == concat(views.take(i as int)),
    {
        complete.append(segments[i].as_str());
        assert(views[i as int] == segments@[i as int]@);
        assert(views.take(i + 1).drop_last() =~= views.take(i as int));
    }
    assert(views.take(last as int) =~= views.drop_last());
    Some(complete)
}

/// `buffer` followed by something that starts no sentence of its own.
fn with_probe(buffer: &str) -> (text: String)
    ensures
        text@ == probe(buffer@),
{
    let mut text = buffer.to_string();
    text.append(" 1");
    text
}

/// Collects text, and hands out what is complete of it.
pub struct IncrementalSegmenter {
    language: DataLanguage,
    buffer: String,
}

impl IncrementalSegmenter {
    /// The rules of the language.
    pub closed spec fn rules(&self) -> LanguageModel {
        self.language.model()
    }

    /// The text that has been collected and not handed out.
    pub closed spec fn buffer(&self) -> Seq<char> {
        self.buffer@
    }

    /// A segmenter for the language that serves for the code, with nothing collected.
    pub fn new(lang_code: &str) -> (result: Result<IncrementalSegmenter, SegmentError>)
        ensures
            result is Ok,
            result->Ok_0.rules() == builtin_tables().rules(lang_code@),
            result->Ok_0.buffer() == Seq::<char>::empty(),
    {
        proof {
            crate::languages::law_every_code_is_served(lang_code@);
        }
        IncrementalSegmenter::with_tables(builtin_languages(), lang_code)
    }

    /// A segmenter for the language that serves for the code, with nothing collected.
    pub fn with_tables(tables: LanguageTables, lang_code: &str) -> (result: Result<
        IncrementalSegmenter,
        SegmentError,
    >)
        requires
            tables@.settles(lang_code@),
        ensures
            result is Ok <==> tables@.serving(lang_code@) is Some,
            result matches Ok(segmenter) ==> {
                &&& segmenter.rules() == tables@.rules(lang_code@)
                &&& segmenter.buffer() == Seq::<char>::empty()
            },
            result matches Err(SegmentError::UnsupportedLanguage(code)) ==> code@ == lang_code@,
    {
        match tables.take_language(lang_code) {
            Some(language) => Ok(IncrementalSegmenter { language, buffer: String::new() }),
            None => Err(SegmentError::UnsupportedLanguage(lang_code.to_string())),
        }
    }

    /// Collects `text`, and hands out what is complete of all that has been collected.
    pub fn accept_text(&mut self, text: &str) -> (complete: Option<String>)
        requires
            old(self).rules().buffer_defined(old(self).buffer() + text@),
        ensures
            final(self).rules() == old(self).rules(),
            final(self).buffer() == old(self).rules().open_part(old(self).buffer() + text@),
            complete is Some <==> old(self).rules().complete_part(
                old(self).buffer() + text@,
            ) is Some,
            complete is Some ==> complete->0@ == old(self).rules().complete_part(
                old(self).buffer() + text@,
            )->0,
    {
        self.buffer.append(text);
        let segments = self.language.segment(with_probe(self.buffer.as_str()).as_str());
        match join_completed(&segments) {
            Some(completed_segment) => {
                let start = str_len(completed_segment.as_str());
                let end = str_len(self.buffer.as_str());
                proof {
                    crate::text::lemma_ends(self.buffer@);
                }
                self.buffer = slice(self.buffer.as_str(), start, end).to_string();
                Some(completed_segment)
            },
            None => None,
        }
    }

    /// Collects `text`, and hands out what is complete of all that has been collected; does
    /// nothing and returns `None` on the outside if that cannot be cut into sentences.
    pub fn try_accept_text(&mut self, text: &str) -> (result: Option<Option<String>>)
        ensures
            final(self).rules() == old(self).rules(),
            result is Some <==> old(self).rules().buffer_defined(old(self).buffer() + text@),
            result is None ==> final(self).buffer() == old(self).buffer(),
            result matches Some(complete) ==> {
                let collected = old(self).buffer() + text@;
                &&& final(self).buffer() == old(self).rules().open_part(collected)
                &&& complete is Some <==> old(self).rules().complete_part(collected) is Some
                &&& complete is Some ==> complete->0@ == old(self).rules().complete_part(
                    collected,
                )->0
            },
    {
        let mut collected = self.buffer.clone();
        collected.append(text);
        let probed = with_probe(collected.as_str());
        match self.language.try_segment(probed.as_str()) {
            None => None,
            Some(segments) => {
                if let Some(complete) = join_completed(&segments) {
                    let start = str_len(complete.as_str());
                    if !is_boundary(collected.as_str(), start) {
                        return None;
                    }
                }
                Some(self.accept_text(text))
            },
        }
    }

    /// Hands out what has been collected and is not complete.
    pub fn get_partial(&mut self) -> (partial: String)
        ensures
            partial@ == old(self).buffer(),
            final(self).buffer() == Seq::<char>::empty(),
            final(self).rules() == old(self).rules(),
    {
        let mut partial = String::new();
        std::mem::swap(&mut partial, &mut self.buffer);
        partial
    }
}

} // verus!
