use tuber::event::{CloseRequestListener, Event, EventDispatcher, EventListener};

struct A {
    a: i32,
}

impl EventListener<()> for A {
    // the reaction this listener declares; the dispatcher's contract is
    // stated over it
    fn on_event_spec(&self, e: &Event<()>) -> Self {
        match *e {
            Event::InputDown("inc") => A { a: self.a + 1 },
            Event::InputDown("dec") => A { a: self.a - 1 },
            _ => A { a: self.a },
        }
    }

    fn on_event(&mut self, e: &Event<()>) {
        match *e {
            Event::InputDown("inc") => self.a += 1,
            Event::InputDown("dec") => self.a -= 1,
            _ => {}
        }
    }
}

#[test]
fn can_register_listener() {
    let mut dispatcher: EventDispatcher<A> = EventDispatcher::new();
    dispatcher.register_listener(A { a: 0 });
    dispatcher.register_listener(A { a: 0 });

    assert_eq!(dispatcher.listener_count(), 2);
}

#[test]
fn can_dispatch_event() {
    let mut dispatcher: EventDispatcher<A> = EventDispatcher::new();
    dispatcher.register_listener(A { a: 0 });
    dispatcher.register_listener(A { a: 0 });

    dispatcher.dispatch(Event::<()>::InputDown("inc"));
    dispatcher.dispatch(Event::<()>::InputDown("inc"));
    dispatcher.dispatch(Event::<()>::InputDown("inc"));

    assert_eq!(dispatcher.listener(0).a, 3);
    assert_eq!(dispatcher.listener(1).a, 3);
}

#[test]
fn dispatch_reaches_every_listener_once() {
    let mut dispatcher: EventDispatcher<A> = EventDispatcher::new();
    dispatcher.register_listener(A { a: 0 });
    dispatcher.register_listener(A { a: 10 });
    dispatcher.register_listener(A { a: 20 });

    dispatcher.dispatch(Event::<()>::InputDown("inc"));

    assert_eq!(dispatcher.listener(0).a, 1);
    assert_eq!(dispatcher.listener(1).a, 11);
    assert_eq!(dispatcher.listener(2).a, 21);
}

#[test]
fn dispatch_other_events_leave_listener_alone() {
    let mut dispatcher: EventDispatcher<A> = EventDispatcher::new();
    dispatcher.register_listener(A { a: 5 });

    dispatcher.dispatch(Event::<()>::InputUp("inc"));
    dispatcher.dispatch(Event::<()>::CloseRequest);
    dispatcher.dispatch(Event::<()>::Custom("tag", vec![1, 2, 3]));

    assert_eq!(dispatcher.listener(0).a, 5);
}

#[test]
fn listener_state_is_reachable_through_its_handle() {
    let mut dispatcher: EventDispatcher<A> = EventDispatcher::new();
    dispatcher.register_listener(A { a: 0 });
    dispatcher.listener_mut(0).a = 41;
    dispatcher.dispatch(Event::<()>::InputDown("inc"));
    assert_eq!(dispatcher.listener(0).a, 42);
}

#[test]
fn close_request_listener_records_close() {
    let mut dispatcher: EventDispatcher<CloseRequestListener> = EventDispatcher::new();
    dispatcher.register_listener(CloseRequestListener::new());

    assert!(!dispatcher.listener(0).close_requested);
    dispatcher.dispatch(Event::<()>::InputDown("inc"));
    assert!(!dispatcher.listener(0).close_requested);
    dispatcher.dispatch(Event::<()>::CloseRequest);
    assert!(dispatcher.listener(0).close_requested);
}
