use pathlight_core::event::{ActivityEvent, Confidence, EventKind, Timestamp};
use pathlight_core::file_url::{decode, encode, strip_trailing_slash};

#[test]
fn encodes_spaces_like_swift_urls() {
    assert_eq!(
        encode("/Users/me/My Files/report final.pdf", false),
        "file:///Users/me/My%20Files/report%20final.pdf"
    );
    assert_eq!(encode("/Users/me/My Files", true), "file:///Users/me/My%20Files/");
    assert_eq!(encode("/Users/me/", true), "file:///Users/me/");
}

#[test]
fn reserved_and_non_ascii_bytes_are_percent_encoded_in_upper_case() {
    assert_eq!(encode("/a#b?c%d", false), "file:///a%23b%3Fc%25d");
    assert_eq!(encode("/café", false), "file:///caf%C3%A9");
    assert_eq!(encode("/a-b_c.d~e", false), "file:///a-b_c.d~e");
}

#[test]
fn a_url_decodes_to_its_path() {
    assert_eq!(decode("file:///Users/me/My%20Files/report%20final.pdf").as_deref(), Some("/Users/me/My Files/report final.pdf"));
    assert_eq!(decode("file:///caf%c3%a9").as_deref(), Some("/café"));
    assert_eq!(decode("file:///a%zz").as_deref(), Some("/a%zz"));
    assert_eq!(decode("https://example.com/x"), None);
    assert_eq!(decode("file:///%FF"), None);
}

#[test]
fn every_path_survives_its_url() {
    for path in ["/", "/a b/c", "/100% real?", "/ünï/cödé", "/tab\there"] {
        assert_eq!(decode(&encode(path, false)).as_deref(), Some(path));
    }
}

#[test]
fn trailing_slashes_go_but_a_lone_one_stays() {
    assert_eq!(strip_trailing_slash("/a/b//".into()), "/a/b");
    assert_eq!(strip_trailing_slash("/".into()), "/");
    assert_eq!(strip_trailing_slash("//".into()), "/");
}

fn row(kind: EventKind, path: &str) -> ActivityEvent {
    ActivityEvent {
        kind,
        path: path.into(),
        root_path: "/w".into(),
        timestamp: Timestamp::from_secs(1),
        byte_delta: None,
        confidence: Confidence::Unknown,
        previous_path: None,
        affected_item_count: 1,
        process_name: None,
    }
}

#[test]
fn an_aggregate_row_names_its_root_as_a_directory() {
    assert_eq!(row(EventKind::Aggregate, "/w").normalize_aggregate_path().path, "/w/");
    assert_eq!(row(EventKind::Aggregate, "/w/").normalize_aggregate_path().path, "/w/");
    assert_eq!(row(EventKind::Aggregate, "/").normalize_aggregate_path().path, "/");
    assert_eq!(row(EventKind::Aggregate, "é").normalize_aggregate_path().path, "é/");
    assert_eq!(row(EventKind::Created, "/w/a").normalize_aggregate_path().path, "/w/a");
    assert_eq!(row(EventKind::Aggregate, "/w/").strip_aggregate_slash().path, "/w");
}

#[test]
fn case_names_are_swifts() {
    assert_eq!(EventKind::Created.case_name(), "created");
    assert_eq!(EventKind::from_case_name("aggregate"), Some(EventKind::Aggregate));
    assert_eq!(EventKind::from_case_name("Created"), None);
    assert_eq!(Confidence::Estimated.case_name(), "estimated");
    assert_eq!(Confidence::from_case_name("unknown"), Some(Confidence::Unknown));
    assert_eq!(Confidence::from_case_name(""), None);
}
