//! Segmentation by language code.

use vstd::prelude::*;

use crate::language::Language;
use crate::languages::{builtin_languages, builtin_tables, get_language, LanguageTables, TablesModel};
use crate::rules::LanguageModel;

verus! {

/// Why a text was not segmented.
#[derive(Debug)]
pub enum SegmentError {
    /// No language serves for this code.
    UnsupportedLanguage(String),
}

impl SegmentError {
    /// The error in words.
    pub fn message(&self) -> (message: String)
        ensures
            message@ == match *self {
                SegmentError::UnsupportedLanguage(code) => "Language `"@ + code@
                    + "` not supported"@,
            },
    {
        match self {
            SegmentError::UnsupportedLanguage(code) => {
                let mut message = "Language `".to_string();
                message.append(code.as_str());
                message.append("` not supported");
                message
            },
        }
    }
}

impl TablesModel {
    /// The rules that serve for this code.
    pub open spec fn rules(self, code: Seq<char>) -> LanguageModel {
        self.registry[self.serving(code)->0]
    }
}

/// The sentences of `text` in the language that serves for the code.
pub fn segment_with(tables: &LanguageTables, lang_code: &str, text: &str) -> (result: Result<
    Vec<String>,
    SegmentError,
>)
    requires
        tables@.settles(lang_code@),
        tables@.serving(lang_code@) is Some ==> tables@.rules(lang_code@).text_defined(text@),
    ensures
        result is Ok <==> tables@.serving(lang_code@) is Some,
        result matches Ok(sentences) ==> sentences.deep_view() == tables@.rules(
            lang_code@,
        ).sentences(text@),
        result matches Err(SegmentError::UnsupportedLanguage(code)) ==> code@ == lang_code@,
{
    match get_language(tables, lang_code) {
        Some(language) => Ok(language.segment(text)),
        None => Err(SegmentError::UnsupportedLanguage(lang_code.to_string())),
    }
}

/// The sentences of `text` in the language that serves for the code, or `None` if the text cannot
/// be cut into them.
pub fn try_segment_with(tables: &LanguageTables, lang_code: &str, text: &str) -> (result: Result<
    Option<Vec<String>>,
    SegmentError,
>)
    requires
        tables@.settles(lang_code@),
    ensures
        result is Ok <==> tables@.serving(lang_code@) is Some,
        result matches Ok(answer) ==> {
            &&& answer is Some <==> tables@.rules(lang_code@).text_defined(text@)
            &&& answer matches Some(sentences) ==> sentences.deep_view() == tables@.rules(
                lang_code@,
            ).sentences(text@)
        },
        result matches Err(SegmentError::UnsupportedLanguage(code)) ==> code@ == lang_code@,
{
    if let Some(language) = get_language(tables, lang_code) {
        if !language.can_segment(text) {
            return Ok(None);
        }
    }
    match segment_with(tables, lang_code, text) {
        Ok(sentences) => Ok(Some(sentences)),
        Err(error) => Err(error),
    }
}

/// The sentences of `text` in the language that serves for the code.
pub fn segment(lang_code: &str, text: &str) -> (result: Result<Vec<String>, SegmentError>)
    requires
        builtin_tables().rules(lang_code@).text_defined(text@),
    ensures
        result is Ok,
        result->Ok_0.deep_view() == builtin_tables().rules(lang_code@).sentences(text@),
{
    proof {
        crate::languages::law_every_code_is_served(lang_code@);
    }
    segment_with(&builtin_languages(), lang_code, text)
}

/// The sentences of `text` in the language that serves for the code, or `None` if the text cannot
/// be cut into them.
pub fn try_segment(lang_code: &str, text: &str) -> (result: Result<
    Option<Vec<String>>,
    SegmentError,
>)
    ensures
        result is Ok,
        result->Ok_0 is Some <==> builtin_tables().rules(lang_code@).text_defined(text@),
        result->Ok_0 matches Some(sentences) ==> sentences.deep_view() == builtin_tables().rules(
            lang_code@,
        ).sentences(text@),
{
    proof {
        crate::languages::law_every_code_is_served(lang_code@);
    }
    let tables = builtin_languages();
    if let Some(language) = get_language(&tables, lang_code) {
        if !language.can_segment(text) {
            return Ok(None);
        }
    }
    match segment(lang_code, text) {
        Ok(sentences) => Ok(Some(sentences)),
        Err(error) => Err(error),
    }
}

} // verus!
