//! Publish/subscribe dispatch of engine events: a synchronous broadcast from
//! producers to registered listeners, in registration order.

use vstd::prelude::*;

verus! {

/// An engine event, broadcast to every registered listener. The parameter
/// `S` is the game-state type carried by a push request.
pub enum Event<S> {
    /// A named input became active.
    InputDown(&'static str),
    /// A named input was released.
    InputUp(&'static str),
    /// Request to shut the engine down.
    CloseRequest,
    /// Request to push the carried state onto the state stack; ownership of
    /// the state transfers to the stack when the request is processed.
    PushStateRequest(S),
    /// Request to pop the top of the state stack.
    PopStateRequest,
    /// An event with a caller-chosen tag and an opaque payload.
    Custom(&'static str, Vec<u8>),
}

/// Trait for event listeners: a listener states its reaction to an event as
/// a specification and implements it.
pub trait EventListener<S>: Sized {
    /// The listener's state after handling `event`.
    spec fn on_event_spec(&self, event: &Event<S>) -> Self;

    /// Handles one dispatched event.
    fn on_event(&mut self, event: &Event<S>)
        ensures
            *final(self) == old(self).on_event_spec(event),
    ;
}

/// Broadcasts events to registered listeners: no priority, no cancellation,
/// every listener sees every dispatched event.
pub struct EventDispatcher<L> {
    listeners: Vec<L>,
}

impl<L> EventDispatcher<L> {
    /// The registered listeners, in registration order.
    pub closed spec fn listeners(&self) -> Seq<L> {
        self.listeners@
    }

    pub fn new() -> (d: EventDispatcher<L>)
        ensures
            d.listeners() == Seq::<L>::empty(),
    {
        EventDispatcher { listeners: Vec::new() }
    }

    /// Appends a listener to the listener set; duplicate registration is not
    /// constrained, so a listener registered twice handles each event twice.
    pub fn register_listener(&mut self, listener: L)
        ensures
            final(self).listeners() == old(self).listeners().push(listener),
    {
        self.listeners.push(listener);
    }

    /// The number of registered listeners.
    pub fn listener_count(&self) -> (n: usize)
        ensures
            n == self.listeners().len(),
    {
        self.listeners.len()
    }

    /// A registered listener, by registration position.
    pub fn listener(&self, i: usize) -> (l: &L)
        requires
            i < self.listeners().len(),
        ensures
            *l == self.listeners()[i as int],
    {
        &self.listeners[i]
    }

    /// A registered listener, by registration position, mutably: every other
    /// listener is kept, and position `i` holds whatever the caller leaves
    /// behind.
    pub fn listener_mut(&mut self, i: usize) -> (l: &mut L)
        requires
            i < old(self).listeners().len(),
        ensures
            *l == old(self).listeners()[i as int],
            final(self).listeners() == old(self).listeners().update(i as int, *final(l)),
    {
        &mut self.listeners[i]
    }

    /// Delivers `event` by reference to every registered listener, in
    /// registration order, synchronously on the calling thread: each
    /// listener handles the same event value exactly once.
    pub fn dispatch<S>(&mut self, event: Event<S>) where L: EventListener<S>
        ensures
            final(self).listeners().len() == old(self).listeners().len(),
            forall|i: int|
                0 <= i < old(self).listeners().len() ==> final(self).listeners()[i] == old(
                    self,
                ).listeners()[i].on_event_spec(&event),
    {
        let ghost orig = self.listeners@;
        let mut done: Vec<L> = Vec::new();
        while self.listeners.len() > 0
            invariant
                done@.len() + self.listeners@.len() == orig.len(),
                forall|i: int|
                    0 <= i < done@.len() ==> done@[i] == orig[i].on_event_spec(&event),
                forall|i: int|
                    0 <= i < self.listeners@.len() ==> self.listeners@[i] == orig[done@.len()
                        + i],
            decreases self.listeners@.len(),
        {
            let mut listener = self.listeners.remove(0);
            listener.on_event(&event);
            done.push(listener);
        }
        self.listeners = done;
    }
}

/// A library-provided listener that records whether a close was requested.
pub struct CloseRequestListener {
    pub close_requested: bool,
}

impl CloseRequestListener {
    pub fn new() -> (listener: CloseRequestListener)
        ensures
            !listener.close_requested,
    {
        CloseRequestListener { close_requested: false }
    }
}

impl<S> EventListener<S> for CloseRequestListener {
    /// The close flag is raised by a close request and kept by every other
    /// event.
    open spec fn on_event_spec(&self, event: &Event<S>) -> Self {
        match *event {
            Event::CloseRequest => CloseRequestListener { close_requested: true },
            _ => *self,
        }
    }

    fn on_event(&mut self, event: &Event<S>) {
        match event {
            Event::CloseRequest => {
                self.close_requested = true;
            },
            _ => {},
        }
    }
}

} // verus!
