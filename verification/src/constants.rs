//! The punctuation and the patterns that all languages share.

use vstd::prelude::*;

verus! {

/// The characters that can end a sentence.
pub const GLOBAL_SENTENCE_TERMINATORS: &'static str = "!.?։؟۔܀܁܂߹।॥၊။።፧፨᙮᜵᜶᠃᠉᥄᥅᪨᪩᪪᪫᭚᭛᭞᭟᰻᰼᱾᱿‼‽⁇⁈⁉⸮⸼꓿꘎꘏꛳꛷꡶꡷꣎꣏꤯꧈꧉꩝꩞꩟꫰꫱꯫﹒﹖﹗！．？｡。";

/// The quotation marks that open and close a quotation.
pub const QUOTE_PAIRS_ARRAY: [(&'static str, &'static str); 12] = [
    ("\"", "\""),
    (" '", "'"),
    ("«", "»"),
    ("‘", "’"),
    ("‚", "‚"),
    ("“", "”"),
    ("‛", "‛"),
    ("„", "“"),
    ("‟", "‟"),
    ("‹", "›"),
    ("《", "》"),
    ("「", "」"),
];

/// What may stand between the two marks of a quotation: anything, as little of it as possible.
pub const QUOTED: &'static str = r"(\n|.)*?";

/// Text in brackets, from an opening bracket to the nearest closing one on its line.
pub const PARENS: &'static str = r"([\(（<{\[])(?:\\\1|.)*?[\)\]}）]";

/// An email address.
pub const EMAIL: &'static str = r"[A-Za-z0-9._%+-]+@[A-Za-z0-9.-]+\.[A-Z|a-z]{2,7}";

/// The empty lines between two paragraphs.
pub const CONSECUTIVE_NEWLINES: &'static str = r"(\n{2,})";

/// Numbers in square brackets at the start of a text, as in `[7][8]`.
pub const NUMBERED_REFERENCE: &'static str = r"^(\[\d+])+";

/// What separates words.
pub const WORD_SPLIT: &'static str = r"[\s\.]+";

/// The characters that separate words: white space and the full stop.
pub const WORD_SEPARATORS: &'static str = "\t\n\u{b}\u{c}\r \u{85}\u{a0}\u{1680}\u{2000}\u{2001}\u{2002}\u{2003}\u{2004}\u{2005}\u{2006}\u{2007}\u{2008}\u{2009}\u{200a}\u{2028}\u{2029}\u{202f}\u{205f}\u{3000}.";

/// For each language without rules of its own, the languages whose rules serve instead, the
/// preferred one first.
pub const LANGUAGE_FALLBACKS: [(&'static str, [&'static str; 2]); 12] = [
    ("ary", ["ar", "en"]),
    ("arz", ["ar", "en"]),
    ("be", ["ru", "en"]),
    ("tt", ["ru", "en"]),
    ("uk", ["ru", "en"]),
    ("br", ["fr", "en"]),
    ("oc", ["fr", "en"]),
    ("wa", ["fr", "en"]),
    ("wuu", ["zh", "en"]),
    ("gan", ["yue", "zh"]),
    ("hak", ["yue", "zh"]),
    ("yue", ["zh", "en"]),
];

/// The language that serves where nothing else is known.
pub const LAST_RESORT: &'static str = "en";

/// The mark that follows an abbreviation.
pub const ABBREVIATION_CHAR: &'static str = ".";

/// English abbreviations.
pub const EN_ABBREVIATIONS: [&'static str; 84] = [
    "A", "B", "C", "D", "E", "F", "G", "H", "I", "J", "K", "L", "M", "N", "O", "P", "Q", "R",
    "S", "T", "U", "V", "W", "X", "Y", "Z", "Adm", "Apr", "Aug", "Ave", "Blvd", "Bros", "Capt",
    "Cdr", "Cmdr", "Co", "Col", "Corp", "Dec", "Dept", "Dr", "Ed", "Est", "Feb", "Fig", "Gen",
    "Gov", "Hon", "Inc", "Jan", "Jr", "Lt", "Ltd", "Maj", "Messrs", "Mr", "Mrs", "Ms", "Mt",
    "Nov", "Oct", "Prof", "Rd", "Rep", "Rev", "Sen", "Sep", "Sept", "Sgt", "Sr", "St", "Vol",
    "al", "approx", "assn", "cf", "dept", "ed", "eds", "est", "etc", "pp", "univ", "vs",
];

/// French abbreviations.
pub const FR_ABBREVIATIONS: [&'static str; 64] = [
    "A", "B", "C", "D", "E", "F", "G", "H", "I", "J", "K", "L", "M", "N", "O", "P", "Q", "R",
    "S", "T", "U", "V", "W", "X", "Y", "Z", "MM", "Mgr", "Mlle", "Mme", "Mmes", "Dr", "Me",
    "Pr", "Prof", "St", "Ste", "av", "avr", "boul", "bd", "cf", "chap", "col", "déc", "dir",
    "env", "etc", "ex", "éd", "fig", "févr", "hab", "janv", "juil", "nov", "oct", "pp", "réf",
    "rééd", "sept", "suiv", "trad", "vol",
];

/// Russian abbreviations.
pub const RU_ABBREVIATIONS: [&'static str; 81] = [
    "А", "Б", "В", "Г", "Д", "Е", "Ж", "З", "И", "К", "Л", "М", "Н", "О", "П", "Р", "С", "Т",
    "У", "Ф", "Х", "Ц", "Ч", "Ш", "Щ", "Э", "Ю", "Я", "акад", "англ", "в", "вв", "г", "гг",
    "гл", "гос", "д", "др", "е", "ед", "илл", "им", "исп", "итал", "кг", "км", "л", "лат",
    "млн", "млрд", "нем", "н", "обл", "пер", "п", "пл", "пос", "пр", "просп", "проф", "р",
    "рис", "род", "рус", "с", "см", "соавт", "сост", "ср", "ст", "стр", "т", "тел", "тов", "тт",
    "тыс", "ул", "фр", "ч", "чел", "э",
];

/// Arabic abbreviations.
pub const AR_ABBREVIATIONS: [&'static str; 9] = [
    "أ", "د", "ص", "م", "ج", "ق", "هـ", "ت", "ط",
];

/// Chinese has no abbreviations with a full stop.
pub const ZH_ABBREVIATIONS: [&'static str; 0] = [];

/// Names that end in an exclamation mark.
pub const EXCLAMATION_WORDS: [&'static str; 5] = [
    "Jeopardy!", "Panic!", "Wham!", "Yahoo!", "Yum!",
];

} // verus!
