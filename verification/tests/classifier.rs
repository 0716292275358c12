//! Tests of the build classifier and version extraction.

use ori_rando_installer::dll_classifier::{
    classify_dll, extract_rando_version, parse_trusted_utf16_number, DllClassification,
    RandoVersion,
};

/// Same fixture builder as the parser tests: a minimal PE image whose
/// `#Strings` and `#US` heaps hold the given bytes.
fn make_dll(strings: &[u8], us: &[u8]) -> Vec<u8> {
    assert!(strings.len() <= 100);
    assert!(us.len() <= 144);
    let mut d = vec![0u8; 1000];

    let put32 = |d: &mut Vec<u8>, at: usize, v: u32| {
        d[at..at + 4].copy_from_slice(&v.to_le_bytes());
    };
    let put16 = |d: &mut Vec<u8>, at: usize, v: u16| {
        d[at..at + 2].copy_from_slice(&v.to_le_bytes());
    };

    put32(&mut d, 60, 64);
    d[64..68].copy_from_slice(b"PE\0\0");
    put16(&mut d, 64 + 6, 1);
    put16(&mut d, 64 + 20, 216);
    put32(&mut d, 88 + 208, 0x1000);
    let sec = 304;
    put32(&mut d, sec + 8, 0x1000);
    put32(&mut d, sec + 12, 0x1000);
    put32(&mut d, sec + 16, 600);
    put32(&mut d, sec + 20, 400);
    put32(&mut d, 400 + 8, 0x1100);
    let md = 656;
    d[md..md + 4].copy_from_slice(b"BSJB");
    put32(&mut d, md + 12, 4);
    put16(&mut d, md + 16 + 4 + 2, 2);
    let e1 = md + 24;
    put32(&mut d, e1, 100);
    put32(&mut d, e1 + 4, strings.len() as u32);
    d[e1 + 8..e1 + 8 + 9].copy_from_slice(b"#Strings\0");
    let e2 = e1 + 20;
    put32(&mut d, e2, 200);
    put32(&mut d, e2 + 4, us.len() as u32);
    d[e2 + 8..e2 + 8 + 4].copy_from_slice(b"#US\0");
    d[md + 100..md + 100 + strings.len()].copy_from_slice(strings);
    d[md + 200..md + 200 + us.len()].copy_from_slice(us);
    d
}

const DE_MARKER: &[u8] = b"SpiritGrenadeDamageDealer\0";
const LEGACY_MARKER: &[u8] = b"HoldingNightberryCondition\0";
const RANDO_MARKER: &[u8] = b"Randomizer\0";

/// UTF-16LE version literal with length prefix and terminating NUL.
fn version_literal(text: &str) -> Vec<u8> {
    let mut content: Vec<u8> = Vec::new();
    for c in text.chars() {
        content.push(c as u8);
        content.push(0);
    }
    content.push(0);
    let mut out = vec![content.len() as u8];
    out.extend_from_slice(&content);
    out
}

#[test]
fn classify_unparseable_is_invalid() {
    assert_eq!(classify_dll(&[]), DllClassification::Invalid);
    assert_eq!(classify_dll(&[0u8; 500]), DllClassification::Invalid);
}

#[test]
fn classify_legacy_marker_is_non_de() {
    let data = make_dll(LEGACY_MARKER, &[]);
    assert_eq!(classify_dll(&data), DllClassification::NonDe);
}

#[test]
fn classify_no_markers_is_invalid() {
    let data = make_dll(b"SomethingElse\0", &[]);
    assert_eq!(classify_dll(&data), DllClassification::Invalid);
}

#[test]
fn classify_de_without_rando_is_vanilla() {
    let data = make_dll(DE_MARKER, &[]);
    assert_eq!(classify_dll(&data), DllClassification::Vanilla);
}

#[test]
fn classify_rando_with_version_literal() {
    let mut strings = DE_MARKER.to_vec();
    strings.extend_from_slice(RANDO_MARKER);
    let us = version_literal("1.2.34");
    let data = make_dll(&strings, &us);
    assert_eq!(
        classify_dll(&data),
        DllClassification::Rando(RandoVersion { major: 1, minor: 2, patch: 34 })
    );
}

#[test]
fn classify_rando_without_version_uses_content_hash() {
    let mut strings = DE_MARKER.to_vec();
    strings.extend_from_slice(RANDO_MARKER);
    let data = make_dll(&strings, &[]);
    let c1 = classify_dll(&data);
    let c2 = classify_dll(&data);
    assert!(matches!(c1, DllClassification::UnknownRando(_)));
    // Identical buffers always hash identically.
    assert_eq!(c1, c2);
}

#[test]
fn distinct_unversioned_builds_keep_distinct_identities() {
    let mut strings = DE_MARKER.to_vec();
    strings.extend_from_slice(RANDO_MARKER);
    let us_a = vec![7u8, 7, 7];
    let us_b = vec![9u8, 9, 9];
    let a = make_dll(&strings, &us_a);
    let b = make_dll(&strings, &us_b);
    let (ca, cb) = (classify_dll(&a), classify_dll(&b));
    let ha = match ca {
        DllClassification::UnknownRando(h) => h,
        c => panic!("unexpected classification {:?}", c),
    };
    let hb = match cb {
        DllClassification::UnknownRando(h) => h,
        c => panic!("unexpected classification {:?}", c),
    };
    // The identities collapse exactly when the hashes collide.
    assert_eq!(ca == cb, ha == hb);
    assert_ne!(ha, hb, "the two fixture buffers should not collide");
}

#[test]
fn extract_selects_maximum_version() {
    let mut us = version_literal("1.0.0");
    us.extend_from_slice(&version_literal("2.3.1"));
    assert_eq!(
        extract_rando_version(&us),
        Some(RandoVersion { major: 2, minor: 3, patch: 1 })
    );

    let mut us_rev = version_literal("2.3.1");
    us_rev.extend_from_slice(&version_literal("1.0.0"));
    assert_eq!(
        extract_rando_version(&us_rev),
        Some(RandoVersion { major: 2, minor: 3, patch: 1 })
    );
}

#[test]
fn extract_rejects_wrong_length_prefix() {
    let mut us = version_literal("4.5.6");
    us[0] = us[0] + 1; // coincidental substring: prefix disagrees
    assert_eq!(extract_rando_version(&us), None);
}

#[test]
fn extract_ignores_surrounding_bytes() {
    let mut us = vec![0xabu8, 0xcd];
    us.extend_from_slice(&version_literal("10.20.30"));
    us.extend_from_slice(&[0x17, 0x00, 0x99]);
    assert_eq!(
        extract_rando_version(&us),
        Some(RandoVersion { major: 10, minor: 20, patch: 30 })
    );
}

#[test]
fn extract_discards_overflowing_numbers() {
    // 20 digits overflow a u64; the candidate is discarded entirely.
    let us = version_literal("99999999999999999999.1.2");
    assert_eq!(extract_rando_version(&us), None);
}

#[test]
fn extract_empty_heap_yields_nothing() {
    assert_eq!(extract_rando_version(&[]), None);
    assert_eq!(extract_rando_version(&[0u8; 32]), None);
}

#[test]
fn utf16_number_decodes_exactly() {
    // "407" as UTF-16LE digit bytes.
    let bytes = [b'4', 0, b'0', 0, b'7', 0];
    assert_eq!(parse_trusted_utf16_number(&bytes), Some(407));
    let zero = [b'0', 0];
    assert_eq!(parse_trusted_utf16_number(&zero), Some(0));
    assert_eq!(parse_trusted_utf16_number(&[]), Some(0));
}

#[test]
fn utf16_number_overflow_is_rejected() {
    // u64::MAX is 18446744073709551615; one more digit overflows.
    let mut bytes = Vec::new();
    for c in "18446744073709551615".chars() {
        bytes.push(c as u8);
        bytes.push(0);
    }
    assert_eq!(parse_trusted_utf16_number(&bytes), Some(u64::MAX));
    bytes.push(b'0');
    bytes.push(0);
    assert_eq!(parse_trusted_utf16_number(&bytes), None);
}

#[test]
fn version_display_string() {
    let v = RandoVersion { major: 1, minor: 2, patch: 34 };
    assert_eq!(v.display_string(), "1.2.34");
    let v0 = RandoVersion { major: 0, minor: 0, patch: 0 };
    assert_eq!(v0.display_string(), "0.0.0");
}
