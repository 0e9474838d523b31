use msg_attachments::directory::{attachment_containers, is_attachment_name, DirEntry};
use msg_attachments::property::extract_attachment_code;
use msg_attachments::resolve::children_to_att_code_map;
use msg_attachments::storage::{property_streams, PropertyStreams};

fn entry(id: u32, name: &str, children: &[u32]) -> DirEntry {
    DirEntry::new(id, name, &children.to_vec())
}

#[test]
fn code_of_payload_stream() {
    assert_eq!(extract_attachment_code("__substg1.0_37010102"), Some("3701".to_string()));
}

#[test]
fn no_code_in_properties_stream() {
    assert_eq!(extract_attachment_code("__properties_version1.0"), None);
}

#[test]
fn code_at_end_of_name() {
    assert_eq!(extract_attachment_code("__substg1.0_3707"), Some("3707".to_string()));
}

#[test]
fn code_needs_leading_underscores() {
    assert_eq!(extract_attachment_code("_substg1.0_37010102"), None);
    assert_eq!(extract_attachment_code("x__substg1.0_37010102"), None);
}

#[test]
fn code_needs_37_and_two_digits() {
    assert_eq!(extract_attachment_code("__substg1.0_3801001F"), None);
    assert_eq!(extract_attachment_code("__substg1.0_37A1001F"), None);
    assert_eq!(extract_attachment_code("__substg1.0_370"), None);
    assert_eq!(extract_attachment_code("__substg1_37010102"), None);
}

#[test]
fn last_candidate_wins() {
    assert_eq!(extract_attachment_code("__a.0_3701b.0_3707c"), Some("3707".to_string()));
}

#[test]
fn line_feed_stops_the_pattern() {
    assert_eq!(extract_attachment_code("__a\n.0_37010102"), None);
    assert_eq!(extract_attachment_code("__a.0_3704\n.0_3707"), Some("3704".to_string()));
}

#[test]
fn non_ascii_names() {
    assert_eq!(extract_attachment_code("__é.0_37070102"), Some("3707".to_string()));
    assert_eq!(extract_attachment_code("__a.0_37٣٣"), None);
}

#[test]
fn attachment_storage_names() {
    assert!(is_attachment_name("__attach_version1.0_#00000000"));
    assert!(is_attachment_name("__attach"));
    assert!(!is_attachment_name("__atach_version1.0_#00000000"));
    assert!(!is_attachment_name("__recip_version1.0_#00000000"));
    assert!(!is_attachment_name(""));
}

#[test]
fn containers_in_directory_order() {
    let es = vec![
        entry(0, "Root Entry", &[1, 2, 3]),
        entry(1, "__attach_version1.0_#00000001", &[4, 5]),
        entry(2, "__recip_version1.0_#00000000", &[6]),
        entry(3, "__attach_version1.0_#00000000", &[7]),
    ];
    assert_eq!(attachment_containers(&es), vec![vec![4, 5], vec![7]]);
}

#[test]
fn no_attachment_storages_gives_nothing() {
    let es = vec![
        entry(0, "Root Entry", &[1, 2]),
        entry(1, "__substg1.0_0037001F", &[]),
        entry(2, "__recip_version1.0_#00000000", &[]),
    ];
    assert!(attachment_containers(&es).is_empty());
    assert!(attachment_containers(&Vec::new()).is_empty());
}

#[test]
fn resolver_keeps_children_with_codes() {
    let es = vec![
        entry(0, "__attach_version1.0_#00000000", &[1, 2, 3]),
        entry(1, "__substg1.0_37010102", &[]),
        entry(2, "__substg1.0_3707001F", &[]),
        entry(3, "__properties_version1.0", &[]),
        entry(4, "__substg1.0_37040102", &[]),
    ];
    let m = children_to_att_code_map(&es, &vec![1, 2, 3]);
    assert_eq!(m.get("3701"), Some(1));
    assert_eq!(m.get("3707"), Some(2));
    assert_eq!(m.get("3704"), None);
}

#[test]
fn resolver_last_write_wins() {
    let es = vec![
        entry(0, "__attach_version1.0_#00000000", &[2, 1]),
        entry(1, "__substg1.0_37010102", &[]),
        entry(2, "__substg1.0_37010102", &[]),
    ];
    let m = children_to_att_code_map(&es, &vec![2, 1]);
    assert_eq!(m.get("3701"), Some(2));
}

#[test]
fn stream_positions_of_one_storage() {
    let es = vec![
        entry(0, "Root Entry", &[1, 5]),
        entry(1, "__attach_version1.0_#00000000", &[2, 3, 4]),
        entry(2, "__substg1.0_37070102", &[]),
        entry(3, "__substg1.0_37010102", &[]),
        entry(4, "__substg1.0_3704001F", &[]),
        entry(5, "__attach_version1.0_#00000001", &[6]),
        entry(6, "__substg1.0_37010102", &[]),
    ];
    assert_eq!(
        property_streams(&es, &vec![2, 3, 4]),
        PropertyStreams { short: Some(4), long: Some(2), data: Some(3) }
    );
    assert_eq!(
        property_streams(&es, &vec![6]),
        PropertyStreams { short: None, long: None, data: Some(6) }
    );
    assert_eq!(
        property_streams(&es, &vec![]),
        PropertyStreams { short: None, long: None, data: None }
    );
}
