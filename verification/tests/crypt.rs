use pathlight_core::crypt::{key_from_file, key_path, open, open_storage_line, seal, seal_storage_line, storage_line_marker, PREFIX};

#[test]
fn a_sealed_line_comes_back_and_a_changed_one_does_not() {
    let key = [7u8; 32];
    let line = seal(&key, br#"{"kind":{"modified":{}}}"#).unwrap();

    assert!(line.starts_with(PREFIX), "{line}");
    assert_eq!(open(&key, &line).as_deref(), Some(&br#"{"kind":{"modified":{}}}"#[..]));
    assert_eq!(open(&[8u8; 32], &line), None, "another key read the row");

    let mut tampered = line.clone();
    let last = tampered.pop().unwrap();
    tampered.push(if last == 'A' { 'B' } else { 'A' });
    assert_eq!(open(&key, &tampered), None);
}

#[test]
fn the_same_line_twice_is_two_different_ciphertexts() {
    let key = [3u8; 32];

    assert_ne!(seal(&key, b"same").unwrap(), seal(&key, b"same").unwrap());
}

fn line_is_encrypted(marker: &str, line: &str) -> bool {
    line.starts_with(marker)
}

#[test]
fn a_host_with_its_own_key_seals_and_opens_a_line() {
    let key = vec![9u8; 32];
    let line = seal_storage_line(b"{}".to_vec(), key.clone()).unwrap();

    assert_eq!(open_storage_line(line.clone(), key.clone()).unwrap(), Some(b"{}".to_vec()));
    assert_eq!(open_storage_line("{}".to_owned(), key.clone()).unwrap(), None);
    assert!(line_is_encrypted(&storage_line_marker(), &line));
    assert!(seal_storage_line(b"{}".to_vec(), vec![9u8; 16]).is_err());
    assert!(open_storage_line(line, vec![1u8; 32]).is_err());
}

#[test]
fn the_key_lives_beside_its_journal() {
    assert_eq!(key_path("/data/activity-events.jsonl"), "/data/activity-events.key");
    assert_eq!(key_path("/data/.hidden"), "/data/.hidden.key");
    assert_eq!(key_path("/data/a.b.c"), "/data/a.b.key");
}

#[test]
fn an_unreadable_key_file_is_never_replaced() {
    let error = key_from_file(b"not a key", "/data/activity-events.key").unwrap_err();
    assert!(error.message().contains("is not a key this build can read"), "{error:?}");
    assert_eq!(key_from_file(&[4u8; 32], "/k").unwrap(), vec![4u8; 32]);
}
