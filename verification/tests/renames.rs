use pathlight_core::renames::{Direction, Half, Released, RenameBuffer, MAX_PENDING, PAIR_WINDOW_MS};

fn half(direction: Direction, tracker: u64, path: &str) -> Half {
    Half { tracker, direction, path: path.to_string() }
}

#[test]
fn from_to_both_becomes_one_rename() {
    let now = 1_000;
    let mut buffer = RenameBuffer::new();
    let mut events = buffer.push(half(Direction::From, 1, "/root/old"), now);
    events.extend(buffer.push(half(Direction::To, 1, "/root/new"), now));
    // The backend's own redundant pairing is not a half: only time passes.
    events.extend(buffer.expire(now));
    events.extend(buffer.expire(now + PAIR_WINDOW_MS));
    assert_eq!(events, vec![Released::Pair { tracker: 1, from: "/root/old".into(), to: "/root/new".into() }]);
    assert_eq!(buffer.deadline(), None);
}

#[test]
fn interleaved_cookies_pair_without_notify_both() {
    let now = 1_000;
    let mut buffer = RenameBuffer::new();
    buffer.push(half(Direction::From, 1, "/a"), now);
    buffer.push(half(Direction::From, 2, "/b"), now);
    let first = buffer.push(half(Direction::To, 1, "/c"), now);
    let second = buffer.push(half(Direction::To, 2, "/d"), now);
    assert_eq!(first, vec![Released::Pair { tracker: 1, from: "/a".into(), to: "/c".into() }]);
    assert_eq!(second, vec![Released::Pair { tracker: 2, from: "/b".into(), to: "/d".into() }]);
    assert!(buffer.expire(now + PAIR_WINDOW_MS).is_empty());
}

#[test]
fn unrelated_and_late_halves_survive_without_a_third_row() {
    let now = 1_000;
    let mut buffer = RenameBuffer::new();
    let from = half(Direction::From, 1, "/a");
    let unrelated = half(Direction::To, 2, "/b");
    assert!(buffer.push(from.clone(), now).is_empty());
    assert!(buffer.push(unrelated.clone(), now).is_empty());
    assert_eq!(buffer.expire(now + PAIR_WINDOW_MS), vec![Released::Alone(from), Released::Alone(unrelated)]);
    let late = half(Direction::To, 1, "/c");
    assert!(buffer.push(late.clone(), now + PAIR_WINDOW_MS).is_empty());
    assert!(buffer.expire(now + PAIR_WINDOW_MS).is_empty());
    assert_eq!(buffer.expire(now + PAIR_WINDOW_MS * 2), vec![Released::Alone(late)]);
    assert_eq!(buffer.deadline(), None);
}

#[test]
fn a_gap_prevents_pairing_across_missing_events() {
    let now = 1_000;
    let mut buffer = RenameBuffer::new();
    buffer.push(half(Direction::From, 1, "/a"), now);
    buffer.gap();
    let to = half(Direction::To, 1, "/b");
    assert!(buffer.push(to.clone(), now).is_empty());
    assert_eq!(buffer.expire(now + PAIR_WINDOW_MS), vec![Released::Alone(to)]);
}

#[test]
fn buffer_exhaustion_reports_a_gap() {
    let now = 1_000;
    let mut buffer = RenameBuffer::new();
    for cookie in 1..=MAX_PENDING as u64 {
        assert!(buffer.push(half(Direction::From, cookie, "/a"), now).is_empty());
    }
    let overflow = buffer.push(half(Direction::From, MAX_PENDING as u64 + 1, "/b"), now);
    assert_eq!(overflow, vec![Released::Gap]);
}

#[test]
fn stopping_hands_back_every_unmatched_half() {
    let mut buffer = RenameBuffer::new();
    buffer.push(half(Direction::From, 7, "/x"), 5);
    assert_eq!(buffer.deadline(), Some(5 + PAIR_WINDOW_MS));
    assert_eq!(buffer.drain(), vec![half(Direction::From, 7, "/x")]);
    assert_eq!(buffer.deadline(), None);
}
