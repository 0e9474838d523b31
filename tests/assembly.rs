use msg_attachments::attachment::{assemble_attachment, Attachment, ExtractError, PropertyRead};

fn utf16le(text: &str) -> Vec<u8> {
    text.encode_utf16().flat_map(|u| u.to_le_bytes()).collect()
}

fn name(text: &str) -> PropertyRead {
    PropertyRead::Bytes(utf16le(text))
}

#[test]
fn assembles_names_and_payload() {
    let a = assemble_attachment(name("REPORT~1.PDF"), name("report 2024.pdf"), PropertyRead::Bytes(vec![1, 2, 3]))
        .unwrap();
    assert_eq!(a.short_filename, Some("REPORT~1.PDF".to_string()));
    assert_eq!(a.long_filename, Some("report 2024.pdf".to_string()));
    assert_eq!(a.data, vec![1, 2, 3]);
}

#[test]
fn long_name_is_preferred() {
    let a = assemble_attachment(name("LONGNA~1.TXT"), name("long name.txt"), PropertyRead::Bytes(vec![0]))
        .unwrap();
    assert_eq!(a.filename(), Some("long name.txt".to_string()));
    assert_eq!(a.target_filename(None), Ok("long name.txt".to_string()));
}

#[test]
fn short_name_when_no_long_name() {
    let a = assemble_attachment(name("SHORT.TXT"), PropertyRead::Absent, PropertyRead::Bytes(vec![0]))
        .unwrap();
    assert_eq!(a.long_filename, None);
    assert_eq!(a.filename(), Some("SHORT.TXT".to_string()));
}

#[test]
fn missing_payload_names_the_attachment() {
    assert_eq!(
        assemble_attachment(name("A.TXT"), name("a long.txt"), PropertyRead::Absent),
        Err(ExtractError::MissingData { attachment: "a long.txt".to_string() })
    );
    assert_eq!(
        assemble_attachment(name("A.TXT"), PropertyRead::Absent, PropertyRead::Absent),
        Err(ExtractError::MissingData { attachment: "A.TXT".to_string() })
    );
    assert_eq!(
        assemble_attachment(PropertyRead::Absent, PropertyRead::Absent, PropertyRead::Absent),
        Err(ExtractError::MissingData { attachment: "(unnamed attachment)".to_string() })
    );
}

#[test]
fn missing_payload_named_by_a_name_that_decodes() {
    let bad = || PropertyRead::Bytes(vec![0x00, 0xD8]);
    assert_eq!(
        assemble_attachment(name("OK.TXT"), bad(), PropertyRead::Absent),
        Err(ExtractError::MissingData { attachment: "OK.TXT".to_string() })
    );
    assert_eq!(
        assemble_attachment(PropertyRead::Unreadable, bad(), PropertyRead::Absent),
        Err(ExtractError::MissingData { attachment: "(unnamed attachment)".to_string() })
    );
    assert_eq!(
        assemble_attachment(bad(), name("fine.txt"), PropertyRead::Absent),
        Err(ExtractError::MissingData { attachment: "fine.txt".to_string() })
    );
}

#[test]
fn invalid_names_are_errors() {
    let bad = || PropertyRead::Bytes(vec![0x00, 0xD8]);
    assert_eq!(
        assemble_attachment(bad(), name("ok.txt"), PropertyRead::Bytes(vec![1])),
        Err(ExtractError::InvalidName { code: "3704".to_string() })
    );
    assert_eq!(
        assemble_attachment(name("OK.TXT"), bad(), PropertyRead::Bytes(vec![1])),
        Err(ExtractError::InvalidName { code: "3707".to_string() })
    );
}

#[test]
fn unreadable_streams_are_errors() {
    assert_eq!(
        assemble_attachment(PropertyRead::Unreadable, name("x.txt"), PropertyRead::Bytes(vec![1])),
        Err(ExtractError::Unreadable { code: "3704".to_string() })
    );
    assert_eq!(
        assemble_attachment(name("X.TXT"), PropertyRead::Unreadable, PropertyRead::Bytes(vec![1])),
        Err(ExtractError::Unreadable { code: "3707".to_string() })
    );
    assert_eq!(
        assemble_attachment(name("X.TXT"), name("x.txt"), PropertyRead::Unreadable),
        Err(ExtractError::Unreadable { code: "3701".to_string() })
    );
}

#[test]
fn target_name_with_prefix() {
    let a = Attachment {
        short_filename: None,
        long_filename: Some("notes.txt".to_string()),
        data: vec![],
    };
    assert_eq!(a.target_filename(Some("mail.msg")), Ok("mail.msg notes.txt".to_string()));
}

#[test]
fn no_name_is_an_error() {
    let a = Attachment { short_filename: None, long_filename: None, data: vec![1] };
    assert_eq!(a.filename(), None);
    assert_eq!(a.target_filename(Some("mail.msg")), Err(ExtractError::MissingName));
}
