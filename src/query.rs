//! Query filters, their evaluation over bitmaps, and anchor-based paging.

use crate::codec::Serialize;
use roaring::RoaringBitmap;
use vstd::prelude::*;

verus! {

#[derive(PartialEq, Eq, Structural, Clone, Copy)]
pub enum Operator {
    LowerThan,
    LowerEqualThan,
    GreaterThan,
    GreaterEqualThan,
    Equal,
}

/// A language for full-text matching; `Unknown` matches without
/// language-specific stemming.
#[derive(PartialEq, Eq, Structural, Clone, Copy)]
pub enum Language {
    English,
    Spanish,
    French,
    German,
    Italian,
    Portuguese,
    Dutch,
    Unknown,
}

/// The language of a two-letter ISO 639-1 code.
pub open spec fn iso_639_language(code: Seq<char>) -> Option<Language> {
    if code == seq!['e', 'n'] {
        Some(Language::English)
    } else if code == seq!['e', 's'] {
        Some(Language::Spanish)
    } else if code == seq!['f', 'r'] {
        Some(Language::French)
    } else if code == seq!['d', 'e'] {
        Some(Language::German)
    } else if code == seq!['i', 't'] {
        Some(Language::Italian)
    } else if code == seq!['p', 't'] {
        Some(Language::Portuguese)
    } else if code == seq!['n', 'l'] {
        Some(Language::Dutch)
    } else {
        None
    }
}

impl Language {
    /// Parses a two-letter ISO 639-1 code.
    pub fn from_iso_639(code: &str) -> (r: Option<Language>)
        ensures
            r == iso_639_language(code@),
    {
        if code.unicode_len() != 2 {
            return None;
        }
        let a = code.get_char(0);
        let b = code.get_char(1);
        assert(code@ =~= seq![a, b]);
        if a == 'e' && b == 'n' {
            Some(Language::English)
        } else if a == 'e' && b == 's' {
            Some(Language::Spanish)
        } else if a == 'f' && b == 'r' {
            Some(Language::French)
        } else if a == 'd' && b == 'e' {
            Some(Language::German)
        } else if a == 'i' && b == 't' {
            Some(Language::Italian)
        } else if a == 'p' && b == 't' {
            Some(Language::Portuguese)
        } else if a == 'n' && b == 'l' {
            Some(Language::Dutch)
        } else {
            proof {
                assert(seq!['e', 'n'][0] == 'e' && seq!['e', 'n'][1] == 'n');
                assert(seq!['e', 's'][1] == 's' && seq!['f', 'r'][0] == 'f');
                assert(seq!['d', 'e'][0] == 'd' && seq!['i', 't'][0] == 'i');
                assert(seq!['p', 't'][0] == 'p' && seq!['n', 'l'][0] == 'n');
            }
            None
        }
    }
}

#[allow(inconsistent_fields)]
pub enum Filter {
    HasKeyword { field: u8, value: String },
    HasKeywords { field: u8, value: String },
    MatchValue { field: u8, op: Operator, value: Vec<u8> },
    HasText { field: u8, text: String, language: Language, match_phrase: bool },
    InBitmap { family: u8, field: u8, key: Vec<u8> },
    DocumentSet(RoaringBitmap),
    And,
    Or,
    Not,
    End,
}

pub enum Comparator {
    Field { field: u8, ascending: bool },
    DocumentSet { set: RoaringBitmap, ascending: bool },
}

/// The documents that matched a filter, within the documents considered.
pub struct ResultSet {
    pub results: RoaringBitmap,
    pub document_ids: RoaringBitmap,
}

/// One page of a sorted result.
pub struct SortedResultRet {
    pub position: i32,
    pub ids: Vec<u32>,
    pub found_anchor: bool,
}

/// A value comparison on `field` against the encoding of `value`.
pub open spec fn is_match_value<T: Serialize>(f: Filter, field: u8, op: Operator, value: T) -> bool {
    match f {
        Filter::MatchValue { field: f2, op: o2, value: v2 } => f2 == field && o2 == op && v2@
            == value.serialized(),
        _ => false,
    }
}

impl Filter {
    pub fn new_condition<T: Serialize>(field: u8, op: Operator, value: T) -> (r: Filter)
        ensures
            is_match_value(r, field, op, value),
    {
        Filter::MatchValue { field, op, value: value.serialize() }
    }

    pub fn eq<T: Serialize>(field: u8, value: T) -> (r: Filter)
        ensures
            is_match_value(r, field, Operator::Equal, value),
    {
        Filter::new_condition(field, Operator::Equal, value)
    }

    pub fn lt<T: Serialize>(field: u8, value: T) -> (r: Filter)
        ensures
            is_match_value(r, field, Operator::LowerThan, value),
    {
        Filter::new_condition(field, Operator::LowerThan, value)
    }

    pub fn le<T: Serialize>(field: u8, value: T) -> (r: Filter)
        ensures
            is_match_value(r, field, Operator::LowerEqualThan, value),
    {
        Filter::new_condition(field, Operator::LowerEqualThan, value)
    }

    pub fn gt<T: Serialize>(field: u8, value: T) -> (r: Filter)
        ensures
            is_match_value(r, field, Operator::GreaterThan, value),
    {
        Filter::new_condition(field, Operator::GreaterThan, value)
    }

    pub fn ge<T: Serialize>(field: u8, value: T) -> (r: Filter)
        ensures
            is_match_value(r, field, Operator::GreaterEqualThan, value),
    {
        Filter::new_condition(field, Operator::GreaterEqualThan, value)
    }
}

/// Text wrapped in a matching pair of double or single quotes.
pub open spec fn is_quoted(t: Seq<char>) -> bool {
    t.len() >= 2 && ((t[0] == '"' && t.last() == '"') || (t[0] == '\'' && t.last() == '\''))
}

/// `i` is the position of the first colon of `t`.
pub open spec fn is_first_colon(t: Seq<char>, i: int) -> bool {
    0 <= i < t.len() && t[i] == ':' && forall|j: int| 0 <= j < i ==> t[j] != ':'
}

/// The `xx:rest` shorthand: a known language code before the first colon,
/// and the text after it.
pub open spec fn language_shorthand(t: Seq<char>) -> Option<(Language, Seq<char>)> {
    if exists|i: int| is_first_colon(t, i) {
        let i = choose|i: int| is_first_colon(t, i);
        match iso_639_language(t.subrange(0, i)) {
            Some(l) => Some((l, t.subrange(i + 1, t.len() as int))),
            None => None,
        }
    } else {
        None
    }
}

/// Detection confidence, in millionths, that a detected language must exceed.
pub const MIN_DETECTION_CONFIDENCE: u32 = 300000;

/// The language that a detector's top candidate (with its confidence in
/// millionths) selects.
pub open spec fn accepted_detection(detected: Option<(Language, u32)>) -> Language {
    match detected {
        Some((l, c)) => if c > MIN_DETECTION_CONFIDENCE {
            l
        } else {
            Language::Unknown
        },
        None => Language::Unknown,
    }
}

/// The text, language and phrase flag of a full-text filter built from raw
/// user text.
pub open spec fn match_text_parts(text: Seq<char>, language: Language, detected: Option<(Language, u32)>)
    -> (Seq<char>, Language, bool) {
    if is_quoted(text) || language != Language::Unknown {
        (text, language, is_quoted(text))
    } else {
        match language_shorthand(text) {
            Some((l, rest)) => (rest, l, false),
            None => (text, accepted_detection(detected), false),
        }
    }
}

fn first_colon(text: &str) -> (r: Option<usize>)
    ensures
        match r {
            Some(i) => is_first_colon(text@, i as int) && forall|k: int| is_first_colon(text@, k) ==> k == i,
            None => !exists|i: int| is_first_colon(text@, i),
        },
{
    let n = text.unicode_len();
    let mut i: usize = 0;
    while i < n
        invariant
            n == text@.len(),
            i <= n,
            forall|j: int| 0 <= j < i ==> text@[j] != ':',
        decreases n - i,
    {
        if text.get_char(i) == ':' {
            proof {
                let t = text@;
                assert forall|k: int| is_first_colon(t, k) implies k == i by {
                    if k < i {
                        assert(t[k] == ':');
                    } else if k > i {
                        assert(t[i as int] != ':');
                    }
                }
            }
            return Some(i);
        }
        i = i + 1;
    }
    None
}

impl Filter {
    /// A full-text filter. Quoted text is matched as a phrase; otherwise, when
    /// no language is given, an `xx:` language prefix is honoured, and failing
    /// that the detector's candidate is taken when confident enough.
    /// `detected` is the detector's top candidate for the whole text, with its
    /// confidence in millionths.
    pub fn match_text(field: u8, text: String, language: Language, detected: Option<(Language, u32)>) -> (r: Filter)
        ensures
            r matches Filter::HasText { field: f, text: t, language: l, match_phrase: p } && f == field
                && (t@, l, p) == match_text_parts(text@, language, detected),
    {
        let n = text.unicode_len();
        let match_phrase = n >= 2 && ((text.get_char(0) == '"' && text.get_char(n - 1) == '"') || (
        text.get_char(0) == '\'' && text.get_char(n - 1) == '\''));
        if match_phrase || language != Language::Unknown {
            return Filter::HasText { field, text, language, match_phrase };
        }
        let s = text.as_str();
        match first_colon(s) {
            Some(i) => {
                let code = s.substring_char(0, i);
                match Language::from_iso_639(code) {
                    Some(l) => {
                        let rest = s.substring_char(i + 1, n).to_owned();
                        return Filter::HasText { field, text: rest, language: l, match_phrase: false };
                    },
                    None => {},
                }
            },
            None => {},
        }
        let lang = match detected {
            Some((l, c)) => if c > MIN_DETECTION_CONFIDENCE {
                l
            } else {
                Language::Unknown
            },
            None => Language::Unknown,
        };
        Filter::HasText { field, text, language: lang, match_phrase: false }
    }
}

impl Comparator {
    pub fn ascending(field: u8) -> (r: Comparator)
        ensures
            r matches Comparator::Field { field: f, ascending: true } && f == field,
    {
        Comparator::Field { field, ascending: true }
    }

    pub fn descending(field: u8) -> (r: Comparator)
        ensures
            r matches Comparator::Field { field: f, ascending: false } && f == field,
    {
        Comparator::Field { field, ascending: false }
    }
}

} // verus!
