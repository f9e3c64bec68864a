use unic_locale::langid::LanguageIdentifier;

fn assert_canonicalize(input: &str, output: &str) {
    assert_eq!(&unic_locale::langid::canonicalize(input).unwrap(), output);
}

fn assert_is_well_formed(input: &str, output: bool) {
    assert_eq!(LanguageIdentifier::is_str_well_formed(input), output);
}

fn assert_canonicalize_locale(input: &str, output: &str) {
    assert_eq!(&unic_locale::locale::canonicalize(input).unwrap(), output);
}

#[test]
fn test_canonicalize() {
    assert_canonicalize("Pl", "pl");
    assert_canonicalize("eN-uS", "en-US");
    assert_canonicalize("ZH_hans_hK", "zh-Hans-HK");
}

#[test]
fn is_well_formed() {
    assert_is_well_formed("Pl", true);
    assert_is_well_formed("und", true);
    assert_is_well_formed("DE-latn", true);
}

#[test]
fn test_canonicalize_str() {
    assert_eq!(
        &LanguageIdentifier::canonicalize_str("ZH_hans_hK").unwrap(),
        "zh-Hans-HK"
    );
}

#[test]
fn test_canonicalize_langid() {
    assert_canonicalize_locale("Pl", "pl");
    assert_canonicalize_locale("eN-uS", "en-US");
    assert_canonicalize_locale("ZH_hans_hK", "zh-Hans-HK");
}

#[test]
fn test_canonicalize_locale() {
    assert_canonicalize_locale("pl-U-HC-H12", "pl-u-hc-h12");
    assert_canonicalize_locale("eN-uS-X_Private", "en-US-x-private");
    assert_canonicalize_locale("eN-uS-t-pl-PL", "en-US-t-pl-PL");
    assert_canonicalize_locale(
        "en-US-t-ES-ar-u-CA-Buddhist-x-foo",
        "en-US-t-es-AR-u-ca-buddhist-x-foo",
    );
    assert_canonicalize_locale(
        "fr-t-t0-windows-h0-hybrid-k0-googlevk-extended",
        "fr-t-h0-hybrid-k0-googlevk-extended-t0-windows",
    );
    assert_canonicalize_locale(
        "en-u-foo-bar-nu-thai-ca-buddhist-kk-true",
        "en-u-bar-foo-ca-buddhist-kk-nu-thai",
    );
    assert_canonicalize_locale("en-US-u-foo-t-es-AR-x-bar", "en-US-t-es-AR-u-foo-x-bar");
    assert_canonicalize_locale("de-u-kn-true", "de-u-kn");
    assert_canonicalize_locale("fr-t-t0-windows-True", "fr-t-t0-windows");
}

#[test]
fn test_canonicalize_idempotent() {
    for input in ["sL_LATN_it-NEDIS-Macos", "eN-uS-t-ES-ar-u-CA-Buddhist-x-foo", "ZH_hans"] {
        let once = unic_locale::locale::canonicalize(input).unwrap();
        let twice = unic_locale::locale::canonicalize(&once).unwrap();
        assert_eq!(once, twice);
    }
    for input in ["sL_LATN_it-NEDIS-Macos", "ZH_hans", "Pl"] {
        let once = unic_locale::langid::canonicalize(input).unwrap();
        let twice = unic_locale::langid::canonicalize(&once).unwrap();
        assert_eq!(once, twice);
    }
}

#[test]
fn test_round_trip_canonical_strings() {
    for s in ["en", "und", "en-Latn-US", "sl-nedis", "en-macos-nedis", "zh-Hans-HK"] {
        let langid: LanguageIdentifier = s.parse().unwrap();
        assert_eq!(&langid.to_string(), s);
    }
}

#[test]
fn test_unicode_boolean_elision() {
    let loc: unic_locale::locale::Locale = "en-u-kn-true".parse().unwrap();
    assert_eq!(&loc.to_string(), "en-u-kn");
}

#[test]
fn test_invalid_input_rejection() {
    assert!(unic_locale::langid::canonicalize("en-1").is_err());
    assert!(unic_locale::langid::canonicalize("toolonglanguagetag").is_err());
    assert!(unic_locale::locale::canonicalize("en-1").is_err());
}

#[test]
fn canonicalize_test_test_canonicalize_langid() {
    assert_canonicalize_locale("Pl", "pl");
    assert_canonicalize_locale("eN-uS", "en-US");
    assert_canonicalize_locale("ZH_hans_hK", "zh-Hans-HK");
}

#[test]
fn canonicalize_test_test_canonicalize_locale() {
    assert_canonicalize_locale("pl-U-HC-H12", "pl-u-hc-h12");
    assert_canonicalize_locale("eN-uS-X_Private", "en-US-x-private");
    assert_canonicalize_locale("eN-uS-t-pl-PL", "en-US-t-pl-PL");
    assert_canonicalize_locale(
        "en-US-t-ES-ar-u-CA-Buddhist-x-foo",
        "en-US-t-es-AR-u-ca-buddhist-x-foo",
    );
    assert_canonicalize_locale(
        "fr-t-t0-windows-h0-hybrid-k0-googlevk-extended",
        "fr-t-h0-hybrid-k0-googlevk-extended-t0-windows",
    );
    assert_canonicalize_locale(
        "en-u-foo-bar-nu-thai-ca-buddhist-kk-true",
        "en-u-bar-foo-ca-buddhist-kk-nu-thai",
    );
    assert_canonicalize_locale("en-US-u-foo-t-es-AR-x-bar", "en-US-t-es-AR-u-foo-x-bar");
    assert_canonicalize_locale("de-u-kn-true", "de-u-kn");
    assert_canonicalize_locale("fr-t-t0-windows-True", "fr-t-t0-windows");
}
