use soar_zip::decode_7z_output;

#[test]
fn utf8_output_decodes_as_is() {
    assert_eq!(decode_7z_output(b"Path = a.txt\n", false), "Path = a.txt\n");
}

#[test]
fn invalid_utf8_becomes_replacement_characters() {
    assert_eq!(decode_7z_output(&[0xff], false), "\u{FFFD}");
}

#[test]
fn legacy_codepage_decodes_gbk_bytes() {
    // GBK encoding of a Chinese character
    assert_eq!(decode_7z_output(&[0xc4, 0xe3], true), "你");
}

#[test]
fn empty_output_stays_empty() {
    assert_eq!(decode_7z_output(b"", false), "");
    assert_eq!(decode_7z_output(b"", true), "");
}
