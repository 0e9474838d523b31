use msg_attachments::output::{candidate_filename, decimal_string, next_attempt, next_suffix, NextAttempt};

/// A directory of named files, written the way the extractor writes: in
/// overwrite mode under the name itself, else under the first free candidate.
fn write(dir: &mut Vec<(String, Vec<u8>)>, filename: &str, data: &[u8], overwrite: bool) -> String {
    if overwrite {
        match dir.iter_mut().find(|(n, _)| n == filename) {
            Some(f) => f.1 = data.to_vec(),
            None => dir.push((filename.to_string(), data.to_vec())),
        }
        return filename.to_string();
    }
    let mut num = None;
    loop {
        let candidate = candidate_filename(filename, num);
        if !dir.iter().any(|(n, _)| *n == candidate) {
            dir.push((candidate.clone(), data.to_vec()));
            return candidate;
        }
        match next_attempt(num, true) {
            NextAttempt::Retry(k) => num = Some(k),
            other => panic!("unexpected {:?}", other),
        }
    }
}

#[test]
fn decimal_notation() {
    assert_eq!(decimal_string(0), "0");
    assert_eq!(decimal_string(7), "7");
    assert_eq!(decimal_string(10), "10");
    assert_eq!(decimal_string(1234), "1234");
    assert_eq!(decimal_string(u32::MAX), "4294967295");
}

#[test]
fn plain_name_first() {
    assert_eq!(candidate_filename("attachment.txt", None), "attachment.txt");
}

#[test]
fn numbered_variants() {
    assert_eq!(candidate_filename("attachment.txt", Some(1)), "attachment_1.txt");
    assert_eq!(candidate_filename("attachment.txt", Some(12)), "attachment_12.txt");
    assert_eq!(candidate_filename("archive.tar.gz", Some(2)), "archive.tar_2.gz");
    assert_eq!(candidate_filename("README", Some(3)), "README_3");
    assert_eq!(candidate_filename(".profile", Some(1)), ".profile_1");
    assert_eq!(candidate_filename("notes.", Some(1)), "notes_1.");
    assert_eq!(candidate_filename("", Some(1)), "_1");
}

#[test]
fn suffixes_count_up_until_exhausted() {
    assert_eq!(next_suffix(None), Some(1));
    assert_eq!(next_suffix(Some(1)), Some(2));
    assert_eq!(next_suffix(Some(u32::MAX - 1)), Some(u32::MAX));
    assert_eq!(next_suffix(Some(u32::MAX)), None);
}

#[test]
fn new_file_gets_its_own_name() {
    let mut dir = Vec::new();
    let data = vec![0u8, 1, 2, 255];
    assert_eq!(write(&mut dir, "attachment.txt", &data, false), "attachment.txt");
    assert_eq!(dir, vec![("attachment.txt".to_string(), data)]);
}

#[test]
fn taken_name_gets_numbered_variant() {
    let mut dir = vec![("attachment.txt".to_string(), b"first".to_vec())];
    assert_eq!(write(&mut dir, "attachment.txt", b"second", false), "attachment_1.txt");
    assert_eq!(dir[0], ("attachment.txt".to_string(), b"first".to_vec()));
    assert_eq!(dir[1], ("attachment_1.txt".to_string(), b"second".to_vec()));
    assert_eq!(write(&mut dir, "attachment.txt", b"third", false), "attachment_2.txt");
    assert_eq!(dir.len(), 3);
}

#[test]
fn overwrite_replaces_content() {
    let mut dir = vec![("attachment.txt".to_string(), b"old content".to_vec())];
    assert_eq!(write(&mut dir, "attachment.txt", b"new", true), "attachment.txt");
    assert_eq!(dir, vec![("attachment.txt".to_string(), b"new".to_vec())]);
}

#[test]
fn only_a_taken_name_is_retried() {
    assert_eq!(next_attempt(None, true), NextAttempt::Retry(1));
    assert_eq!(next_attempt(Some(4), true), NextAttempt::Retry(5));
    assert_eq!(next_attempt(Some(u32::MAX), true), NextAttempt::Exhausted);
    assert_eq!(next_attempt(None, false), NextAttempt::Fail);
    assert_eq!(next_attempt(Some(3), false), NextAttempt::Fail);
}
