use eff_lib::CString;

#[test]
fn from_bytes_stops_at_nul() {
    let s = CString::from_bytes(b"MARIO_FINAL_BULLET\0");
    assert_eq!(s.as_bytes(), b"MARIO_FINAL_BULLET");
    let s = CString::from_bytes(b"ab\0cd\0");
    assert_eq!(s.as_bytes(), b"ab");
    let s = CString::from_bytes(b"no terminator");
    assert_eq!(s.as_bytes(), b"no terminator");
}

#[test]
fn len_counts_bytes() {
    let s = CString::from_bytes(b"M_MarioFinalBullet\0");
    assert_eq!(s.len(), 18);
}

#[test]
fn is_empty_only_without_bytes() {
    assert!(CString::from_bytes(b"\0").is_empty());
    assert!(!CString::from_bytes(b"bulletA1\0").is_empty());
}

#[test]
fn to_str_reads_utf8() {
    let s = CString::from_bytes(b"bulletA3\0");
    assert_eq!(s.to_str().unwrap(), "bulletA3");
    let s = CString::from_vec(vec![0xC3, 0xA9]);
    assert_eq!(s.to_str().unwrap(), "\u{e9}");
}

#[test]
fn to_string_reads_utf8() {
    let s = CString::from_bytes(b"bulletB1\0");
    assert_eq!(s.to_string().unwrap(), "bulletB1".to_string());
}

#[test]
fn invalid_utf8_is_rejected_but_kept() {
    let s = CString::from_vec(vec![0x61, 0xFF, 0x62]);
    assert!(s.to_str().is_err());
    assert!(s.to_string().is_err());
    assert_eq!(s.as_bytes(), &[0x61, 0xFF, 0x62]);
}

#[test]
fn from_text_encodes_utf8() {
    let s = CString::from_text("j\u{f6}int");
    assert_eq!(s.as_bytes(), &[0x6A, 0xC3, 0xB6, 0x69, 0x6E, 0x74]);
}
