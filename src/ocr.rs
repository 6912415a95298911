//! The languages offered for reading text in pictures, and the buttons
//! that pick one.

use vstd::prelude::*;
use vstd::string::StringSliceAdditionalSpecFns;
use crate::callback::{field_is, split, split_ranges};

verus! {

#[derive(Clone, Copy, Debug, PartialEq, Eq, Structural)]
pub enum Language {
    English,
    Japanese,
    SimplifiedChinese,
    TraditionalChinese,
}

/// The name of a language's trained data.
pub open spec fn code_of(l: Language) -> Seq<u8> {
    match l {
        Language::English => "eng".spec_bytes(),
        Language::Japanese => "jpn".spec_bytes(),
        Language::SimplifiedChinese => "chi_sim".spec_bytes(),
        Language::TraditionalChinese => "chi_tra".spec_bytes(),
    }
}

/// The language whose trained data is named `s`.
pub open spec fn language_of(s: Seq<u8>) -> Option<Language> {
    if s == "eng".spec_bytes() {
        Some(Language::English)
    } else if s == "jpn".spec_bytes() {
        Some(Language::Japanese)
    } else if s == "chi_sim".spec_bytes() {
        Some(Language::SimplifiedChinese)
    } else if s == "chi_tra".spec_bytes() {
        Some(Language::TraditionalChinese)
    } else {
        None
    }
}

fn language_at(b: &[u8], lo: usize, hi: usize) -> (r: Option<Language>)
    requires
        lo <= hi <= b@.len(),
    ensures
        r == language_of(b@.subrange(lo as int, hi as int)),
{
    if field_is(b, lo, hi, "eng") {
        Some(Language::English)
    } else if field_is(b, lo, hi, "jpn") {
        Some(Language::Japanese)
    } else if field_is(b, lo, hi, "chi_sim") {
        Some(Language::SimplifiedChinese)
    } else if field_is(b, lo, hi, "chi_tra") {
        Some(Language::TraditionalChinese)
    } else {
        None
    }
}

impl Language {
    /// Every language, in the order they are offered.
    pub fn iter() -> (r: Vec<Language>)
        ensures
            r@ == seq![
                Language::English,
                Language::Japanese,
                Language::SimplifiedChinese,
                Language::TraditionalChinese,
            ],
    {
        let mut r: Vec<Language> = Vec::new();
        r.push(Language::English);
        r.push(Language::Japanese);
        r.push(Language::SimplifiedChinese);
        r.push(Language::TraditionalChinese);
        proof {
            assert(r@ =~= seq![
                Language::English,
                Language::Japanese,
                Language::SimplifiedChinese,
                Language::TraditionalChinese,
            ]);
        }
        r
    }

    /// The language whose trained data is named `s`.
    pub fn from_tesseract_data_str(s: &str) -> (r: Option<Language>)
        ensures
            r == language_of(s.spec_bytes()),
    {
        let b = s.as_bytes();
        proof {
            assert(b@.subrange(0, b@.len() as int) =~= b@);
        }
        language_at(b, 0, b.len())
    }

    /// The name of the language's trained data.
    pub fn as_tesseract_data_str(&self) -> (r: &'static str)
        ensures
            r.spec_bytes() == code_of(*self),
    {
        match self {
            Language::English => "eng",
            Language::Japanese => "jpn",
            Language::SimplifiedChinese => "chi_sim",
            Language::TraditionalChinese => "chi_tra",
        }
    }

    /// The language's name, as shown on its button.
    pub fn name(&self) -> (r: &'static str)
        ensures
            r@ == match *self {
                Language::English => "English"@,
                Language::Japanese => "日本語"@,
                Language::SimplifiedChinese => "简体中文"@,
                Language::TraditionalChinese => "繁體中文"@,
            },
    {
        match self {
            Language::English => "English",
            Language::Japanese => "日本語",
            Language::SimplifiedChinese => "简体中文",
            Language::TraditionalChinese => "繁體中文",
        }
    }
}

/// The languages offered for reading text, in the order their buttons show.
#[derive(Clone, Debug)]
pub struct OcrLangs {
    pub langs: Vec<Language>,
}

impl OcrLangs {
    /// Every language, in the order `Language::iter` gives.
    pub fn init() -> (r: Self)
        ensures
            r.langs@ == seq![
                Language::English,
                Language::Japanese,
                Language::SimplifiedChinese,
                Language::TraditionalChinese,
            ],
    {
        OcrLangs { langs: Language::iter() }
    }
}

/// What a language button asks for.
#[derive(Clone, Copy, Debug, PartialEq, Eq, Structural)]
pub enum CallbackData {
    Select(Language),
    Unselect,
}

/// The request of a button's data `ocr-<code>` or `ocr-unselect`.
pub open spec fn ocr_callback_of(data: Seq<u8>) -> Option<CallbackData> {
    let f = split(data, 45);
    if f.len() == 2 && f[0] == "ocr".spec_bytes() {
        if f[1] == "unselect".spec_bytes() {
            Some(CallbackData::Unselect)
        } else {
            match language_of(f[1]) {
                Some(l) => Some(CallbackData::Select(l)),
                None => None,
            }
        }
    } else {
        None
    }
}

/// Reads a button's data as `ocr_callback_of` says.
pub fn parse_callback_data(data: &str) -> (r: Option<CallbackData>)
    ensures
        r == ocr_callback_of(data.spec_bytes()),
{
    let b = data.as_bytes();
    let ranges = split_ranges(b, 45);
    if ranges.len() != 2 {
        return None;
    }
    let (lo, hi) = ranges[0];
    if !field_is(b, lo, hi, "ocr") {
        return None;
    }
    let (lo, hi) = ranges[1];
    if field_is(b, lo, hi, "unselect") {
        return Some(CallbackData::Unselect);
    }
    match language_at(b, lo, hi) {
        Some(l) => Some(CallbackData::Select(l)),
        None => None,
    }
}

} // verus!
