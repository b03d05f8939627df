//! The window capability consumed by the main loop: polled input events and
//! frame presentation.

use vstd::prelude::*;

use crate::input::Input;
use crate::input::keyboard;

verus! {

/// An event polled from the window's event queue.
#[derive(Clone, Copy, Debug)]
pub enum WindowEvent {
    /// Event triggered on a window close request
    Close,
    /// Event triggered on key pressed
    KeyDown(keyboard::Key),
    /// Event triggered on key released
    KeyUp(keyboard::Key),
    /// Event triggered when an unknown event occurs
    Unknown,
}

/// The input event matching a window event, in the input-listener
/// vocabulary.
pub open spec fn translate_spec(e: WindowEvent) -> Input {
    match e {
        WindowEvent::Close => Input::Close,
        WindowEvent::KeyDown(k) => Input::KeyDown(k),
        WindowEvent::KeyUp(k) => Input::KeyUp(k),
        WindowEvent::Unknown => Input::NoOp,
    }
}

/// Translates a window event into the input-listener vocabulary.
pub fn translate_event(e: WindowEvent) -> (r: Input)
    ensures
        r == translate_spec(e),
{
    match e {
        WindowEvent::Close => Input::Close,
        WindowEvent::KeyDown(k) => Input::KeyDown(k),
        WindowEvent::KeyUp(k) => Input::KeyUp(k),
        WindowEvent::Unknown => Input::NoOp,
    }
}

/// The window capability: a source of input events that can present frames.
pub trait Window: Sized {
    /// An upper bound on the input events still pending in the window's
    /// queue; polling may hand out an event only by decreasing it, so
    /// draining the queue one tick at a time terminates.
    spec fn pending(&self) -> nat;

    /// Polls a pending event from the window's event queue.
    ///
    /// If there is no pending event, returns `None`.
    fn poll_event(&mut self) -> (e: Option<WindowEvent>)
        ensures
            e is Some ==> final(self).pending() < old(self).pending(),
    ;

    /// Makes the window visible.
    fn show(&mut self) {
    }

    /// Hides the window.
    fn conceal(&mut self) {
    }

    /// Makes the window's graphics context the current one.
    fn set_current_graphics_context(&mut self) {
    }

    /// Presents the frame.
    fn display(&mut self) {
    }
}

/// A no-op window for tests and headless runs: it never produces an event
/// and presents nothing.
pub struct Headless {
}

impl Headless {
    pub fn new() -> (w: Headless) {
        Headless {  }
    }
}

impl Window for Headless {
    open spec fn pending(&self) -> nat {
        0
    }

    fn poll_event(&mut self) -> (e: Option<WindowEvent>) {
        None
    }
}

} // verus!
