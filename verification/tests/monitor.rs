use std::cell::RefCell;

use pathlight_core::event::Timestamp;
use pathlight_core::monitor::{ActivityListener, ChangeKind, Emitter, StreamEvent};

struct Collect(RefCell<Vec<StreamEvent>>);

impl ActivityListener for Collect {
    fn on_event(&self, event: StreamEvent) {
        self.0.borrow_mut().push(event);
    }
}

#[test]
fn a_change_reaches_the_listener_spelled_the_one_way() {
    let emitter = Emitter::new("/watched/", Collect(RefCell::new(Vec::new())));
    assert_eq!(emitter.root(), "/watched");
    let event = emitter.change_event(ChangeKind::Created, "/watched/a.txt/", 3, Timestamp::from_secs(9));
    match event {
        StreamEvent::Change { change, event_id } => {
            assert_eq!(event_id, 3);
            assert_eq!(change.path, "/watched/a.txt");
            assert_eq!(change.root_path, "/watched");
            assert_eq!(change.timestamp, Timestamp::from_secs(9));
        }
        other => panic!("{other:?}"),
    }
    emitter.change(ChangeKind::Deleted, "/watched/b", 4, Timestamp::from_secs(10));
    emitter.emit(StreamEvent::HistoryCaughtUp { event_id: 5 });
}
