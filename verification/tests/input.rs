use tuber::input::keyboard::Key;
use tuber::input::mouse::Button;
use tuber::input::{dispatch_input, Input, InputListener};
use tuber::util::str_eq;
use tuber::window::{translate_event, Headless, Window, WindowEvent};

#[derive(Clone, Default)]
struct Probe {
    closes: u32,
    resizes: u32,
    key_downs: u32,
    key_ups: u32,
    mouse_downs: u32,
    mouse_ups: u32,
    wheels: u32,
}

impl InputListener for Probe {
    // the reaction this listener declares; the library's dispatch contract
    // is stated over it
    fn on_input_spec(&self, input: Input) -> Self {
        let mut next = self.clone();
        match input {
            Input::Close => next.closes += 1,
            Input::Resize(_, _) => next.resizes += 1,
            Input::KeyDown(_) => next.key_downs += 1,
            Input::KeyUp(_) => next.key_ups += 1,
            Input::MouseDown(_) => next.mouse_downs += 1,
            Input::MouseUp(_) => next.mouse_ups += 1,
            Input::MouseWheelChange(_, _) => next.wheels += 1,
            Input::NoOp => {}
        }
        next
    }

    fn on_close(&mut self) {
        self.closes += 1;
    }

    fn on_resize(&mut self, _width: u32, _height: u32) {
        self.resizes += 1;
    }

    fn on_key_down(&mut self, _key: Key) {
        self.key_downs += 1;
    }

    fn on_key_up(&mut self, _key: Key) {
        self.key_ups += 1;
    }

    fn on_mouse_down(&mut self, _button: Button) {
        self.mouse_downs += 1;
    }

    fn on_mouse_up(&mut self, _button: Button) {
        self.mouse_ups += 1;
    }

    fn on_mouse_wheel_change(&mut self, _absolute: u32, _relative: i32) {
        self.wheels += 1;
    }
}

#[test]
fn each_input_reaches_its_matching_handler() {
    let mut probe = Probe::default();
    dispatch_input(&mut probe, Input::Close);
    dispatch_input(&mut probe, Input::Resize(800, 600));
    dispatch_input(&mut probe, Input::KeyDown(Key::A));
    dispatch_input(&mut probe, Input::KeyUp(Key::A));
    dispatch_input(&mut probe, Input::MouseDown(Button::Left));
    dispatch_input(&mut probe, Input::MouseUp(Button::Left));
    dispatch_input(&mut probe, Input::MouseWheelChange(3, -1));
    assert_eq!(probe.closes, 1);
    assert_eq!(probe.resizes, 1);
    assert_eq!(probe.key_downs, 1);
    assert_eq!(probe.key_ups, 1);
    assert_eq!(probe.mouse_downs, 1);
    assert_eq!(probe.mouse_ups, 1);
    assert_eq!(probe.wheels, 1);
}

#[test]
fn no_op_input_triggers_no_handler() {
    let mut probe = Probe::default();
    dispatch_input(&mut probe, Input::NoOp);
    assert_eq!(probe.closes, 0);
    assert_eq!(probe.resizes, 0);
    assert_eq!(probe.key_downs, 0);
    assert_eq!(probe.key_ups, 0);
    assert_eq!(probe.mouse_downs, 0);
    assert_eq!(probe.mouse_ups, 0);
    assert_eq!(probe.wheels, 0);
}

#[test]
fn window_events_translate_one_to_one() {
    assert!(matches!(translate_event(WindowEvent::Close), Input::Close));
    assert!(matches!(
        translate_event(WindowEvent::KeyDown(Key::Q)),
        Input::KeyDown(Key::Q)
    ));
    assert!(matches!(
        translate_event(WindowEvent::KeyUp(Key::Escape)),
        Input::KeyUp(Key::Escape)
    ));
    assert!(matches!(translate_event(WindowEvent::Unknown), Input::NoOp));
}

#[test]
fn headless_window_never_produces_events() {
    let mut window = Headless::new();
    assert!(window.poll_event().is_none());
    assert!(window.poll_event().is_none());
}

#[test]
fn string_comparison_is_by_characters() {
    assert!(str_eq("root", "root"));
    assert!(!str_eq("root", "roots"));
    assert!(!str_eq("root", "ruut"));
    assert!(str_eq("", ""));
}
