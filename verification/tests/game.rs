use tuber::event::Event;
use tuber::game::{Game, GameState, IdleState};
use tuber::input::InputListener;
use tuber::window::Headless;

use tuber::input::keyboard::Key;
use tuber::input::mouse::Button;

struct DummyState;

impl GameState for DummyState {
    fn update(&mut self) -> Vec<Event<Self>> {
        Vec::new()
    }
}

impl InputListener for DummyState {
    fn on_close(&mut self) {}
    fn on_resize(&mut self, _width: u32, _height: u32) {}
    fn on_key_down(&mut self, _key: Key) {}
    fn on_key_up(&mut self, _key: Key) {}
    fn on_mouse_down(&mut self, _button: Button) {}
    fn on_mouse_up(&mut self, _button: Button) {}
    fn on_mouse_wheel_change(&mut self, _absolute: u32, _relative: i32) {}
}

struct IncrementState {
    value: u32,
}

impl GameState for IncrementState {
    fn update(&mut self) -> Vec<Event<Self>> {
        self.value += 1;
        Vec::new()
    }
}

impl InputListener for IncrementState {
    fn on_close(&mut self) {}
    fn on_resize(&mut self, _width: u32, _height: u32) {}
    fn on_key_down(&mut self, _key: Key) {}
    fn on_key_up(&mut self, _key: Key) {}
    fn on_mouse_down(&mut self, _button: Button) {}
    fn on_mouse_up(&mut self, _button: Button) {}
    fn on_mouse_wheel_change(&mut self, _absolute: u32, _relative: i32) {}
}

struct PopperState;

impl GameState for PopperState {
    fn update(&mut self) -> Vec<Event<Self>> {
        vec![Event::PopStateRequest]
    }
}

impl InputListener for PopperState {
    fn on_close(&mut self) {}
    fn on_resize(&mut self, _width: u32, _height: u32) {}
    fn on_key_down(&mut self, _key: Key) {}
    fn on_key_up(&mut self, _key: Key) {}
    fn on_mouse_down(&mut self, _button: Button) {}
    fn on_mouse_up(&mut self, _button: Button) {}
    fn on_mouse_wheel_change(&mut self, _absolute: u32, _relative: i32) {}
}

#[test]
fn new_game() {
    let game = Game::new(DummyState {}, Headless::new());
    assert_eq!(game.state_count(), 1);
}

#[test]
fn update_game_state() {
    let mut game_state = IncrementState { value: 0 };
    game_state.update();
    assert_eq!(game_state.value, 1);
    game_state.update();
    assert_eq!(game_state.value, 2);
    game_state.update();
    assert_eq!(game_state.value, 3);
}

#[test]
fn three_ticks_update_thrice_without_halting() {
    let mut game = Game::new(IncrementState { value: 0 }, Headless::new());
    let unspent = game.run(3);
    assert_eq!(unspent, 0);
    assert_eq!(game.state_count(), 1);
    assert_eq!(game.current_state().unwrap().value, 3);
}

#[test]
fn push_and_pop_change_arity_by_one() {
    let mut game = Game::new(DummyState {}, Headless::new());
    assert_eq!(game.state_count(), 1);
    game.push_state(DummyState {});
    assert_eq!(game.state_count(), 2);
    game.push_state(DummyState {});
    assert_eq!(game.state_count(), 3);
    assert!(game.pop_state().is_some());
    assert_eq!(game.state_count(), 2);
    assert!(game.pop_state().is_some());
    assert_eq!(game.state_count(), 1);
}

#[test]
fn popping_to_zero_halts_the_loop() {
    let mut game = Game::new(DummyState {}, Headless::new());
    assert!(game.pop_state().is_some());
    assert_eq!(game.state_count(), 0);
    let unspent = game.run(5);
    assert_eq!(unspent, 5);
}

#[test]
fn pop_request_emitted_by_update_halts_the_loop() {
    let mut game = Game::new(PopperState {}, Headless::new());
    let unspent = game.run(10);
    assert_eq!(game.state_count(), 0);
    assert_eq!(unspent, 9);
}

#[test]
fn idle_state_keeps_running() {
    let mut game = Game::new(IdleState {}, Headless::new());
    assert_eq!(game.run(3), 0);
    assert_eq!(game.state_count(), 1);
}

#[test]
fn process_event_applies_stack_requests() {
    let mut game = Game::new(DummyState {}, Headless::new());
    game.process_event(Event::PushStateRequest(DummyState {}));
    assert_eq!(game.state_count(), 2);
    game.process_event(Event::CloseRequest);
    assert_eq!(game.state_count(), 2);
    game.process_event(Event::PopStateRequest);
    assert_eq!(game.state_count(), 1);
    game.process_event(Event::PopStateRequest);
    assert_eq!(game.state_count(), 0);
    game.process_event(Event::PopStateRequest);
    assert_eq!(game.state_count(), 0);
}
