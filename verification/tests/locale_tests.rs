use unic_locale::errors::{LocaleError, ParserError};
use unic_locale::extensions::{ExtensionType, ExtensionsMap};
use unic_locale::langid::LanguageIdentifier;
use unic_locale::locale::{parse_locale, Locale};

fn assert_locale_extensions(loc: &Locale, extensions: &ExtensionsMap) {
    assert_eq!(&loc.extensions, extensions);
}

fn assert_parsed_locale_identifier(input: &str, extensions: &ExtensionsMap) {
    let loc = parse_locale(input).unwrap();
    assert_locale_extensions(&loc, extensions);
}

#[test]
fn test_basic() {
    let loc: Locale = "en-US".parse().unwrap();
    let loc2 = Locale {
        id: LanguageIdentifier::from_parts(Some("en"), None, Some("US"), &[]).unwrap(),
        extensions: ExtensionsMap::default(),
    };
    assert_eq!(loc, loc2);
}

#[test]
fn locale_test_test_from_parts() {
    let extensions = ExtensionsMap::default();
    let loc = Locale::from_parts(Some("en"), None, None, &[], Some(extensions)).unwrap();
    let loc2 = Locale {
        id: LanguageIdentifier::from_parts(Some("en"), None, None, &[]).unwrap(),
        extensions: ExtensionsMap::default(),
    };
    assert_eq!(loc, loc2);
}

#[test]
fn test_locale_identifier() {
    let mut extensions = ExtensionsMap::default();
    extensions.unicode.set_keyword("hc", &["h12"]).unwrap();
    assert_parsed_locale_identifier("pl-u-hc-h12", &extensions);

    extensions.unicode.set_attribute("foo").unwrap();
    assert_parsed_locale_identifier("pl-u-foo-hc-h12", &extensions);

    let val = extensions.unicode.get_keyword("hc").unwrap();
    let val: Vec<&str> = val.iter().map(|s| s.as_str()).collect();
    assert_eq!(val, &["h12"]);

    let val = extensions.unicode.get_keyword("aa").unwrap();
    assert_eq!(val.is_empty(), true);

    let val = extensions.unicode.remove_keyword("hc").unwrap();
    assert_eq!(val, true);
    assert_parsed_locale_identifier("pl-u-foo", &extensions);

    let val = extensions.unicode.has_attribute("foo").unwrap();
    assert_eq!(val, true);

    let val = extensions.unicode.has_attribute("aaa").unwrap();
    assert_eq!(val, false);

    let val = extensions.unicode.remove_attribute("foo").unwrap();
    assert_eq!(val, true);
    assert_parsed_locale_identifier("pl", &extensions);

    extensions.transform.set_tfield("m0", &["foo"]).unwrap();
    assert_parsed_locale_identifier("pl-t-m0-foo", &extensions);

    let val = extensions.transform.tfield("m0").unwrap();
    let val: Vec<&str> = val.iter().map(|s| s.as_str()).collect();
    assert_eq!(val, &["foo"]);

    let val = extensions.transform.tfield("x0").unwrap();
    assert_eq!(val.is_empty(), true);

    let val = extensions.transform.remove_tfield("m0").unwrap();
    assert_eq!(val, true);
    assert_parsed_locale_identifier("pl", &extensions);

    let mut extensions = ExtensionsMap::default();
    extensions.private.add_tag("testing").unwrap();
    assert_parsed_locale_identifier("und-x-testing", &extensions);
}

#[test]
fn test_serialize_locale() {
    let loc: Locale = "en-u-hc-h12".parse().unwrap();
    assert_eq!(&loc.to_string(), "en-u-hc-h12");
}

#[test]
fn test_from_langid() {
    let langid: LanguageIdentifier = "en-US".parse().unwrap();
    let loc = Locale::from(langid);
    assert_eq!(&loc.to_string(), "en-US");
}

#[test]
fn test_to_langid() {
    let loc: Locale = "en-US-u-hc-h12".parse().unwrap();
    let langid: LanguageIdentifier = loc.into();
    assert_eq!(langid.to_string(), "en-US");
}

#[test]
fn locale_test_test_matches() {
    let loc_en: Locale = "en-u-hc-h12".parse().unwrap();
    let loc_en_us: Locale = "en-US".parse().unwrap();
    let loc_en_us2: Locale = "en-US-u-hc-h24".parse().unwrap();
    let loc_pl: Locale = "pl".parse().unwrap();
    assert_eq!(loc_en.matches(&loc_en_us, false, false), false);
    assert_eq!(loc_en_us.matches(&loc_en_us2, false, false), true);
    assert_eq!(loc_en.matches(&loc_pl, false, false), false);
    assert_eq!(loc_en.matches(&loc_en_us, true, false), true);

    let langid_en: LanguageIdentifier = "en-US".parse().unwrap();
    assert_eq!(langid_en.matches(&loc_en_us.id, true, true), true);
    assert_eq!(
        loc_en_us.matches(&Locale::from(langid_en), true, true),
        true
    );
}

#[test]
fn locale_test_test_set_fields() {
    let mut loc = Locale::default();
    assert_eq!(&loc.to_string(), "und");

    loc.id.set_language(Some("pl")).expect("Setting language failed");
    assert_eq!(&loc.to_string(), "pl");

    loc.id.set_language(Some("de")).expect("Setting language failed");
    assert_eq!(&loc.to_string(), "de");
    loc.id.set_region(Some("AT")).expect("Setting region failed");
    assert_eq!(&loc.to_string(), "de-AT");
    loc.id.set_script(Some("Latn")).expect("Setting script failed");
    assert_eq!(&loc.to_string(), "de-Latn-AT");
    loc.id.set_variants(&["macos"]).expect("Setting variants failed");
    assert_eq!(&loc.to_string(), "de-Latn-AT-macos");

    loc.id.set_language(None).expect("Setting language failed");
    assert_eq!(&loc.to_string(), "und-Latn-AT-macos");
    loc.id.set_region(None).expect("Setting region failed");
    assert_eq!(&loc.to_string(), "und-Latn-macos");
    loc.id.set_script(None).expect("Setting script failed");
    assert_eq!(&loc.to_string(), "und-macos");
    loc.id.set_variants(&[]).expect("Setting variants failed");
    assert_eq!(&loc.to_string(), "und");
}

#[test]
fn test_likelysubtags() {
    let mut loc_en: Locale = "en-u-hc-h12".parse().unwrap();
    assert_eq!(loc_en.id.add_likely_subtags(), true);
    assert_eq!(loc_en.to_string(), "en-Latn-US-u-hc-h12");

    let mut loc_sr: Locale = "sr-Cyrl-u-hc-h12".parse().unwrap();
    assert_eq!(loc_sr.id.add_likely_subtags(), true);
    assert_eq!(loc_sr.to_string(), "sr-Cyrl-RS-u-hc-h12");

    let mut loc_zh_hans: Locale = "zh-Hans-u-hc-h12".parse().unwrap();
    assert_eq!(loc_zh_hans.id.remove_likely_subtags(), true);
    assert_eq!(loc_zh_hans.to_string(), "zh-u-hc-h12");

    let mut loc_zh_hant: Locale = "zh-Hant-u-hc-h12".parse().unwrap();
    assert_eq!(loc_zh_hant.id.remove_likely_subtags(), true);
    assert_eq!(loc_zh_hant.to_string(), "zh-TW-u-hc-h12");
}

#[test]
fn test_unicode_attributes_ordering() {
    let mut loc: Locale = "en-u-foo-bar".parse().unwrap();
    assert_eq!(&loc.to_string(), "en-u-bar-foo");

    loc.extensions
        .unicode
        .set_attribute("baz")
        .expect("Can't set attribute");
    assert_eq!(&loc.to_string(), "en-u-bar-baz-foo");
}

#[test]
fn test_extension_accessors() {
    let loc: Locale = "en-US-u-ca-buddhist-nu-thai-t-k0-dvorak-h0-hybrid-x-faa-foo"
        .parse()
        .unwrap();
    let keys = loc.extensions.unicode.get_keyword_keys();
    let keys: Vec<&str> = keys.iter().map(|s| s.as_str()).collect();
    assert_eq!(keys, &["ca", "nu"]);

    let tkeys = loc.extensions.transform.tfield_keys();
    let tkeys: Vec<&str> = tkeys.iter().map(|s| s.as_str()).collect();
    assert_eq!(tkeys, &["h0", "k0"]);

    assert_eq!(loc.extensions.private.has_tag("faa"), Ok(true));
    let tags = loc.extensions.private.tags();
    let tags: Vec<&str> = tags.iter().map(|s| s.as_str()).collect();
    assert_eq!(tags, &["faa", "foo"]);
    assert_eq!(loc.extensions.private.is_empty(), false);
}

#[test]
fn test_transform_tlang() {
    let loc: Locale = "de-t-en-US-h0-hybrid".parse().unwrap();
    let tlang = loc.extensions.transform.tlang().unwrap();
    assert_eq!(&tlang.to_string(), "en-US");
    let vals = loc.extensions.transform.tfield("h0").unwrap();
    let vals: Vec<&str> = vals.iter().map(|s| s.as_str()).collect();
    assert_eq!(vals, &["hybrid"]);
}

#[test]
fn test_extensions_map_from_bytes() {
    let ext = ExtensionsMap::from_bytes("u-hc-h12".as_bytes()).unwrap();
    let vals = ext.unicode.get_keyword("hc").unwrap();
    let vals: Vec<&str> = vals.iter().map(|s| s.as_str()).collect();
    assert_eq!(vals, &["h12"]);

    let mut expected = ExtensionsMap::default();
    expected.unicode.set_keyword("hc", &["h12"]).unwrap();
    assert_eq!(ext, expected);
}

#[test]
fn test_extension_type_from_byte() {
    assert_eq!(ExtensionType::from_byte(b'u'), Ok(ExtensionType::Unicode));
    assert_eq!(ExtensionType::from_byte(b'T'), Ok(ExtensionType::Transform));
    assert_eq!(ExtensionType::from_byte(b'x'), Ok(ExtensionType::Private));
    assert_eq!(ExtensionType::from_byte(b'a'), Ok(ExtensionType::Other('a')));
    assert_eq!(ExtensionType::from_byte(b'!'), Err(ParserError::InvalidExtension));
}

#[test]
fn test_unknown_singleton_rejected() {
    assert_eq!(
        unic_locale::locale::canonicalize("en-a-foo"),
        Err(LocaleError::ParserError(ParserError::InvalidExtension))
    );
}

#[test]
fn test_into_parts_round_trip() {
    let loc: Locale = "en-US-u-hc-h12".parse().unwrap();
    let (lang, script, region, variants, ext) = loc.into_parts();
    let ext = ExtensionsMap::from_bytes(ext.trim_start_matches('-').as_bytes()).unwrap();
    let loc2 = unic_locale::locale::Locale::from_raw_parts_unchecked(
        lang, script, region, variants, ext,
    );
    assert_eq!(&loc2.to_string(), "en-US-u-hc-h12");
}
