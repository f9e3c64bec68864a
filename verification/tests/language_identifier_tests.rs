use unic_locale::errors::{LanguageIdentifierError, ParserError};
use unic_locale::langid::LanguageIdentifier;
use unic_locale::parser::parse_language_identifier;

fn assert_language_identifier(
    loc: &LanguageIdentifier,
    language: Option<&str>,
    script: Option<&str>,
    region: Option<&str>,
    variants: Option<&[&str]>,
) {
    assert_eq!(loc.get_language(), language.unwrap_or("und"));
    assert_eq!(loc.get_script().as_deref(), script);
    assert_eq!(loc.get_region().as_deref(), region);
    let vars = loc.get_variants();
    let vars: Vec<&str> = vars.iter().map(|s| s.as_str()).collect();
    assert_eq!(&vars[..], variants.unwrap_or(&[]));
}

fn assert_parsed_language_identifier(
    input: &str,
    language: Option<&str>,
    script: Option<&str>,
    region: Option<&str>,
    variants: Option<&[&str]>,
) {
    let langid = parse_language_identifier(input).unwrap();
    assert_language_identifier(&langid, language, script, region, variants);
}

#[test]
fn test_language_identifier_parser() {
    assert_parsed_language_identifier("pl", Some("pl"), None, None, None);
    assert_parsed_language_identifier("und", None, None, None, None);
    assert_parsed_language_identifier("en-US", Some("en"), None, Some("US"), None);
    assert_parsed_language_identifier("en-Latn-US", Some("en"), Some("Latn"), Some("US"), None);
    assert_parsed_language_identifier("sl-nedis", Some("sl"), None, None, Some(&["nedis"]));
}

#[test]
fn test_language_casing() {
    assert_parsed_language_identifier("Pl", Some("pl"), None, None, None);
    assert_parsed_language_identifier("En-uS", Some("en"), None, Some("US"), None);
    assert_parsed_language_identifier("eN-lAtN-uS", Some("en"), Some("Latn"), Some("US"), None);
    assert_parsed_language_identifier("ZH_cyrl_hN", Some("zh"), Some("Cyrl"), Some("HN"), None);
}

#[test]
fn test_serialize_langid() {
    let langid: LanguageIdentifier = "en-Latn-US".parse().unwrap();
    assert_eq!(&langid.to_string(), "en-Latn-US");
}

#[test]
fn test_sorted_variants() {
    let langid: LanguageIdentifier = "en-nedis-macos".parse().unwrap();
    assert_eq!(&langid.to_string(), "en-macos-nedis");

    let langid =
        LanguageIdentifier::from_parts(Some("en"), None, None, &["nedis", "macos"]).unwrap();
    assert_eq!(&langid.to_string(), "en-macos-nedis");
}

#[test]
fn test_from_parts() {
    let langid = LanguageIdentifier::from_parts(Some("en"), None, None, &["1", "macos"]);
    assert_eq!(
        langid,
        Err(LanguageIdentifierError::ParserError(ParserError::InvalidSubtag))
    );
}

#[test]
fn test_from_parts_unchecked() {
    let langid: LanguageIdentifier = "en-nedis-macos".parse().unwrap();
    let (lang, script, region, variants) = langid.into_raw_parts();
    let langid = LanguageIdentifier::from_raw_parts_unchecked(lang, script, region, variants);
    assert_eq!(&langid.to_string(), "en-macos-nedis");
}

#[test]
fn test_matches() {
    let langid_en: LanguageIdentifier = "en".parse().unwrap();
    let langid_en_us: LanguageIdentifier = "en-US".parse().unwrap();
    let langid_en_us2: LanguageIdentifier = "en-US".parse().unwrap();
    let langid_pl: LanguageIdentifier = "pl".parse().unwrap();
    assert_eq!(langid_en.matches(&langid_en_us, false, false), false);
    assert_eq!(langid_en_us.matches(&langid_en_us2, false, false), true);
    assert_eq!(langid_en.matches(&langid_pl, false, false), false);
    assert_eq!(langid_en.matches(&langid_en_us, true, false), true);
}

#[test]
fn test_set_fields() {
    let mut langid = LanguageIdentifier::default();
    assert_eq!(&langid.to_string(), "und");

    langid
        .set_language(Some("pl"))
        .expect("Setting language failed");
    assert_eq!(&langid.to_string(), "pl");

    langid
        .set_language(Some("de"))
        .expect("Setting language failed");
    assert_eq!(&langid.to_string(), "de");
    langid
        .set_region(Some("AT"))
        .expect("Setting region failed");
    assert_eq!(&langid.to_string(), "de-AT");
    langid
        .set_script(Some("Latn"))
        .expect("Setting script failed");
    assert_eq!(&langid.to_string(), "de-Latn-AT");
    langid
        .set_variants(&["macos"])
        .expect("Setting variants failed");
    assert_eq!(&langid.to_string(), "de-Latn-AT-macos");

    langid.set_language(None).expect("Setting language failed");
    assert_eq!(&langid.to_string(), "und-Latn-AT-macos");
    langid.set_region(None).expect("Setting region failed");
    assert_eq!(&langid.to_string(), "und-Latn-macos");
    langid.set_script(None).expect("Setting script failed");
    assert_eq!(&langid.to_string(), "und-macos");
    langid.set_variants(&[]).expect("Setting variants failed");
    assert_eq!(&langid.to_string(), "und");
}

#[test]
fn basic_test() {
    let loc: LanguageIdentifier = "en-US".parse().expect("Malformed Language Identifier");
    assert_eq!(&loc.to_string(), "en-US");
}

#[test]
fn test_case_insensitive_equality() {
    let lower: LanguageIdentifier = "en-latn-us-macos".parse().unwrap();
    let upper: LanguageIdentifier = "EN-LATN-US-MACOS".parse().unwrap();
    let mixed: LanguageIdentifier = "eN-LaTn-Us-MacOS".parse().unwrap();
    assert_eq!(lower, upper);
    assert_eq!(lower, mixed);
}

#[test]
fn test_separator_equivalence() {
    let under: LanguageIdentifier = "ZH_hans_hK".parse().unwrap();
    let hyphen: LanguageIdentifier = "zh-Hans-HK".parse().unwrap();
    assert_eq!(under, hyphen);
}

#[test]
fn test_subtag_parsers() {
    assert_eq!(unic_locale::subtags::parse_language_subtag("und"), Ok(None));
    assert!(unic_locale::subtags::parse_language_subtag("EN").unwrap().is_some());
    assert_eq!(
        unic_locale::subtags::parse_language_subtag("root"),
        Err(ParserError::InvalidLanguage)
    );
    assert!(unic_locale::subtags::parse_script_subtag("Latn").is_ok());
    assert_eq!(
        unic_locale::subtags::parse_script_subtag("La"),
        Err(ParserError::InvalidSubtag)
    );
    assert!(unic_locale::subtags::parse_region_subtag("US").is_ok());
    assert!(unic_locale::subtags::parse_region_subtag("419").is_ok());
    assert_eq!(
        unic_locale::subtags::parse_region_subtag("4a9"),
        Err(ParserError::InvalidSubtag)
    );
    assert!(unic_locale::subtags::parse_variant_subtag("macos").is_ok());
    assert!(unic_locale::subtags::parse_variant_subtag("1996").is_ok());
    assert_eq!(
        unic_locale::subtags::parse_variant_subtag("lat"),
        Err(ParserError::InvalidSubtag)
    );
}

#[test]
fn test_codec_round_trip() {
    let bytes = vec![109u8, 97, 99, 111, 115];
    let packed = unic_locale::codec::pack8_bytes(&bytes);
    assert_eq!(unic_locale::codec::unpack8_bytes(packed), bytes);
    let four = vec![108u8, 97, 116, 110];
    let packed4 = unic_locale::codec::pack4_bytes(&four);
    assert_eq!(unic_locale::codec::unpack4_bytes(packed4), four);
}

#[test]
fn test_variant_deduplication() {
    let langid: LanguageIdentifier = "en-macos-macos-nedis".parse().unwrap();
    assert_eq!(&langid.to_string(), "en-macos-nedis");
}
