//! Tests of the PE/CLI metadata parser on hand-built fixtures.

use ori_rando_installer::dll_parser::{parse_dll, read_u16, read_u32};

/// Builds a minimal PE image with CLI metadata whose `#Strings` and
/// `#US` heaps hold the given bytes.
///
/// Layout: PE header at 64; one section mapping virtual 0x1000..0x2000
/// to file 400..1000; CLI header at RVA 0x1000 (file 400); metadata
/// root at RVA 0x1100 (file 656); the strings heap at metadata offset
/// 100 and the user-string heap at offset 200.
fn build_fixture(strings: &[u8], us: &[u8]) -> Vec<u8> {
    assert!(strings.len() <= 100);
    assert!(us.len() <= 144);
    let mut d = vec![0u8; 1000];

    let put32 = |d: &mut Vec<u8>, at: usize, v: u32| {
        d[at..at + 4].copy_from_slice(&v.to_le_bytes());
    };
    let put16 = |d: &mut Vec<u8>, at: usize, v: u16| {
        d[at..at + 2].copy_from_slice(&v.to_le_bytes());
    };

    // PE header offset.
    put32(&mut d, 60, 64);
    d[64..68].copy_from_slice(b"PE\0\0");
    put16(&mut d, 64 + 6, 1); // one section
    put16(&mut d, 64 + 20, 216); // optional header size

    // CLI header RVA, at offset 208 of the optional header.
    put32(&mut d, 88 + 208, 0x1000);

    // Section record at 88 + 216 = 304.
    let sec = 304;
    put32(&mut d, sec + 8, 0x1000); // virtual size
    put32(&mut d, sec + 12, 0x1000); // virtual start
    put32(&mut d, sec + 16, 600); // file size
    put32(&mut d, sec + 20, 400); // file start

    // CLI header at file 400: metadata RVA at offset 8.
    put32(&mut d, 400 + 8, 0x1100);

    // Metadata root at file 656.
    let md = 656;
    d[md..md + 4].copy_from_slice(b"BSJB");
    put32(&mut d, md + 12, 4); // version string length (already a multiple of 4)
    put16(&mut d, md + 16 + 4 + 2, 2); // stream count

    // Stream directory at md + 24.
    let e1 = md + 24;
    put32(&mut d, e1, 100);
    put32(&mut d, e1 + 4, strings.len() as u32);
    d[e1 + 8..e1 + 8 + 9].copy_from_slice(b"#Strings\0");
    // Name padded to 12 bytes; next entry at e1 + 20.
    let e2 = e1 + 20;
    put32(&mut d, e2, 200);
    put32(&mut d, e2 + 4, us.len() as u32);
    d[e2 + 8..e2 + 8 + 4].copy_from_slice(b"#US\0");

    d[md + 100..md + 100 + strings.len()].copy_from_slice(strings);
    d[md + 200..md + 200 + us.len()].copy_from_slice(us);

    d
}

#[test]
fn parse_valid_fixture_returns_exact_heaps() {
    let strings = b"SpiritGrenadeDamageDealer\0extra".to_vec();
    let us = vec![1u8, 2, 3, 4, 5];
    let data = build_fixture(&strings, &us);

    let heaps = parse_dll(&data).expect("fixture must parse");
    assert_eq!(heaps.strings, &strings[..]);
    assert_eq!(heaps.us, &us[..]);
}

#[test]
fn parse_truncated_fixture_never_succeeds() {
    let strings = b"abc\0".to_vec();
    let us = vec![0u8; 8];
    let data = build_fixture(&strings, &us);

    for n in 0..data.len() {
        let prefix = &data[..n];
        assert!(parse_dll(prefix).is_err(), "prefix of length {} parsed", n);
    }
    assert!(parse_dll(&data).is_ok());
}

#[test]
fn parse_empty_and_garbage_fail() {
    assert!(parse_dll(&[]).is_err());
    assert!(parse_dll(&[0u8; 63]).is_err());
    let garbage: Vec<u8> = (0..4096u32).map(|i| (i * 7 + 13) as u8).collect();
    assert!(parse_dll(&garbage).is_err());
}

#[test]
fn parse_rejects_wrong_pe_magic() {
    let strings = b"x\0".to_vec();
    let us = vec![0u8];
    let mut data = build_fixture(&strings, &us);
    data[64] = b'Q';
    assert!(parse_dll(&data).is_err());
}

#[test]
fn parse_rejects_wrong_metadata_magic() {
    let strings = b"x\0".to_vec();
    let us = vec![0u8];
    let mut data = build_fixture(&strings, &us);
    assert_eq!(&data[656..660], b"BSJB");
    data[656] = b'X';
    assert!(parse_dll(&data).is_err());
}

#[test]
fn parse_rejects_missing_us_heap() {
    let strings = b"x\0".to_vec();
    let us = vec![0u8];
    let mut data = build_fixture(&strings, &us);
    let name_pos = data.iter().position(|&b| b == b'U').unwrap();
    assert_eq!(&data[name_pos - 1..name_pos + 2], b"#US");
    data[name_pos] = b'V';
    assert!(parse_dll(&data).is_err());
}

#[test]
fn read_helpers_are_bounds_checked() {
    let data = [0x34u8, 0x12, 0xff];
    assert_eq!(read_u16(&data, 0, "eof"), Ok(0x1234));
    assert_eq!(read_u16(&data, 1, "eof"), Ok(0xff12));
    assert_eq!(read_u16(&data, 2, "eof"), Err("eof"));
    assert_eq!(read_u32(&data, 0, "eof"), Err("eof"));
    let data4 = [0x78u8, 0x56, 0x34, 0x12];
    assert_eq!(read_u32(&data4, 0, "eof"), Ok(0x12345678));
}
