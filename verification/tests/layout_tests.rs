use unic_locale::langid::LanguageIdentifier;
use unic_locale::layout::CharacterDirection;

#[test]
fn test_character_direction() {
    let langid: LanguageIdentifier = "en-US".parse().unwrap();
    let langid2: LanguageIdentifier = "ar-AF".parse().unwrap();
    assert_eq!(langid.get_character_direction(), CharacterDirection::LTR);
    assert_eq!(langid2.get_character_direction(), CharacterDirection::RTL);
}

#[test]
fn test_rtl_table() {
    for lang in ["ar", "fa", "he", "ps", "sd", "ur"] {
        let langid: LanguageIdentifier = lang.parse().unwrap();
        assert_eq!(langid.get_character_direction(), CharacterDirection::RTL);
    }
    for lang in ["en", "pl", "und", "zh"] {
        let langid: LanguageIdentifier = lang.parse().unwrap();
        assert_eq!(langid.get_character_direction(), CharacterDirection::LTR);
    }
}
