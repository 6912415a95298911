use chatgames::context::{BotInfo, ConfigError, ServerError};
use chatgames::ocr::{parse_callback_data, CallbackData, Language};

#[test]
fn languages_and_their_codes() {
    let all = Language::iter();
    assert_eq!(all.len(), 4);
    for l in all.iter() {
        assert_eq!(Language::from_tesseract_data_str(l.as_tesseract_data_str()), Some(*l));
    }
    assert_eq!(Language::from_tesseract_data_str("jpn"), Some(Language::Japanese));
    assert_eq!(Language::from_tesseract_data_str("chi"), None);
    assert_eq!(Language::TraditionalChinese.as_tesseract_data_str(), "chi_tra");
    assert_eq!(Language::SimplifiedChinese.name(), "简体中文");
}

#[test]
fn parse_ocr_buttons() {
    assert_eq!(parse_callback_data("ocr-eng"), Some(CallbackData::Select(Language::English)));
    assert_eq!(parse_callback_data("ocr-chi_sim"), Some(CallbackData::Select(Language::SimplifiedChinese)));
    assert_eq!(parse_callback_data("ocr-unselect"), Some(CallbackData::Unselect));
    assert_eq!(parse_callback_data("ocr-xyz"), None);
    assert_eq!(parse_callback_data("ocr-eng-jpn"), None);
    assert_eq!(parse_callback_data("ocreng"), None);
}

#[test]
fn bot_info_holds_its_fields() {
    let b = BotInfo::from(42, String::from("@bot"));
    assert_eq!(b.id, 42);
    assert_eq!(b.username, "@bot");
}

#[test]
fn start_up_errors() {
    let e = ConfigError::Help(String::from("usage"));
    assert!(matches!(e, ConfigError::Help(ref s) if s == "usage"));
    assert_ne!(ServerError::ApiError, ServerError::ProxyError);
}

#[test]
fn offered_languages() {
    let langs = chatgames::ocr::OcrLangs::init();
    assert_eq!(langs.langs, Language::iter());
}
