use qr_scan::candidates::{decode_pdf_text_bytes, extract_qr_candidates, normalize_qr_like_text};

const PAYLOAD: &str = "01,32,,24512000,88.50,20240315,12345678,9AF3";

#[test]
fn finds_a_payload_in_text() {
    assert_eq!(extract_qr_candidates(&format!("发票 {PAYLOAD}；")), vec![PAYLOAD.to_string()]);
}

#[test]
fn gaps_and_wide_commas_do_not_matter() {
    let torn = "x 0 1，3\n2,,245\t12000,\r88.50,20240315\0,12345678,9AF3 尾";
    assert_eq!(extract_qr_candidates(torn), vec![PAYLOAD.to_string()]);
}

#[test]
fn every_opening_counts() {
    let twice = format!("{PAYLOAD};{PAYLOAD}");
    assert_eq!(extract_qr_candidates(&twice), vec![PAYLOAD.to_string(), PAYLOAD.to_string()]);
    let joined = "01,3201,32,a,b,c,d,e,f,g,h,i,j";
    assert_eq!(
        extract_qr_candidates(joined),
        vec![joined.to_string(), "01,32,a,b,c,d,e,f,g,h,i,j".to_string()]
    );
}

#[test]
fn payloads_are_cut_after_221_characters() {
    let long = format!("01,32,a,b,c,d,e,{}", "x".repeat(400));
    let found = extract_qr_candidates(&long);
    assert_eq!(found, vec![long[..221].to_string()]);
}

#[test]
fn short_or_thin_texts_are_no_payloads() {
    assert!(extract_qr_candidates("01,32,a,b,c,d").is_empty());
    assert!(extract_qr_candidates("01,32,,,,,,").is_empty());
    assert!(extract_qr_candidates("").is_empty());
    assert!(extract_qr_candidates("01,3").is_empty());
}

#[test]
fn normalizing_asks_for_opening_commas_and_length() {
    assert_eq!(normalize_qr_like_text("01,32,a,b,c,d,e,123456"), Some("01,32,a,b,c,d,e,123456".to_string()));
    assert_eq!(normalize_qr_like_text("01,32,a,b,c,d,e,1234"), Some("01,32,a,b,c,d,e,1234".to_string()));
    assert_eq!(normalize_qr_like_text("01,32,a,b,c,d,e,123"), None);
    assert_eq!(normalize_qr_like_text("01,32,a,b,c,d123456789"), None);
    assert_eq!(normalize_qr_like_text("02,32,a,b,c,d,e,123456"), None);
    assert_eq!(normalize_qr_like_text("01,32,a,b,c,d,e,一"), None);
    assert_eq!(normalize_qr_like_text("01,32,a,b,c,d,e,一二"), Some("01,32,a,b,c,d,e,一二".to_string()));
    assert_eq!(normalize_qr_like_text("x01， 32,a,b,c,d,e,12345"), Some("x01,32,a,b,c,d,e,12345".to_string()));
    assert_eq!(normalize_qr_like_text("01,\t32,a,b,c,d,e,1234567"), None);
}

#[test]
fn plain_bytes_are_utf8() {
    assert_eq!(decode_pdf_text_bytes("发票".as_bytes()), vec!["发票".to_string()]);
    assert!(decode_pdf_text_bytes(b"").is_empty());
    assert_eq!(decode_pdf_text_bytes(b"a\xffb"), vec!["a\u{fffd}b".to_string()]);
}

#[test]
fn byte_order_marks_tell_utf16() {
    let mut big = vec![0xfe, 0xff];
    let mut little = vec![0xff, 0xfe];
    for unit in "01,😀票".encode_utf16() {
        big.extend(unit.to_be_bytes());
        little.extend(unit.to_le_bytes());
    }
    for bytes in [big.clone(), little.clone()] {
        let texts = decode_pdf_text_bytes(&bytes);
        assert_eq!(texts.len(), 2);
        assert_eq!(texts[0], String::from_utf8_lossy(&bytes));
        assert_eq!(texts[1], "01,😀票");
    }
    big.push(0x41);
    assert_eq!(decode_pdf_text_bytes(&big)[1], "01,😀票");
}

#[test]
fn lone_surrogates_are_no_text() {
    assert_eq!(decode_pdf_text_bytes(&[0xfe, 0xff, 0xd8, 0x00]).len(), 1);
    assert_eq!(decode_pdf_text_bytes(&[0xfe, 0xff, 0xdc, 0x00, 0xd8, 0x00]).len(), 1);
    assert_eq!(decode_pdf_text_bytes(&[0xfe, 0xff, 0xd8, 0x00, 0x00, 0x41]).len(), 1);
    assert_eq!(decode_pdf_text_bytes(&[0xfe, 0xff]).len(), 2);
}

#[test]
fn many_zeros_tell_utf16_without_a_mark() {
    let bytes: Vec<u8> = "01,32".encode_utf16().flat_map(|unit| unit.to_be_bytes()).collect();
    assert_eq!(decode_pdf_text_bytes(&bytes)[1], "01,32");
    assert_eq!(decode_pdf_text_bytes(&[0, b'a', b'b']).len(), 1);
    assert_eq!(decode_pdf_text_bytes(&[0, b'a']), vec!["\0a".to_string(), "a".to_string()]);
}

#[test]
fn normalizing_again_changes_nothing() {
    let once = normalize_qr_like_text(" 01，32,a b,c,d,e,f,g\n123456").unwrap();
    assert_eq!(once, "01,32,ab,c,d,e,f,g123456");
    assert_eq!(normalize_qr_like_text(&once), Some(once.clone()));
    assert_eq!(extract_qr_candidates(&once), vec![once]);
}
