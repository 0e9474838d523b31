use msg_attachments::utf16::{decode_utf16le, u8_to_16_vec};

fn utf16le(text: &str) -> Vec<u8> {
    text.encode_utf16().flat_map(|u| u.to_le_bytes()).collect()
}

#[test]
fn units_are_little_endian() {
    assert_eq!(u8_to_16_vec(&[0x41, 0x00, 0x34, 0x12]), vec![0x0041, 0x1234]);
}

#[test]
fn odd_trailing_byte_is_dropped() {
    assert_eq!(u8_to_16_vec(&[0x41, 0x00, 0x42, 0x00, 0x43]), vec![0x41, 0x42]);
    assert_eq!(u8_to_16_vec(&[0x41]), Vec::<u16>::new());
    let mut bytes = utf16le("report.pdf");
    bytes.push(0x7f);
    assert_eq!(decode_utf16le(&bytes), Some("report.pdf".to_string()));
}

#[test]
fn text_round_trips() {
    for text in ["", "attachment.txt", "Résumé – März.docx", "日本語.xlsx", "emoji 😀.png"] {
        assert_eq!(decode_utf16le(&utf16le(text)), Some(text.to_string()));
    }
}

#[test]
fn unpaired_surrogate_fails() {
    assert_eq!(decode_utf16le(&[0x00, 0xD8, 0x41, 0x00]), None);
    assert_eq!(decode_utf16le(&[0x00, 0xDC]), None);
    assert_eq!(decode_utf16le(&[0x3D, 0xD8]), None);
}
