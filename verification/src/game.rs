//! The game-state stack and the fixed main loop: states are pushed and
//! popped on a stack, and each tick drains pending input into the active
//! state, invokes its update once, then processes the emitted stack
//! requests.

use vstd::prelude::*;

use crate::event::Event;
use crate::input::{dispatch_input, fold_inputs, lemma_fold_inputs_snoc, Input, InputListener};
use crate::window::{translate_event, Window};

verus! {

/// A polymorphic unit of per-frame behaviour; the input-listener capability
/// is required separately by the loop. A state declares its frame behaviour
/// as the specifications `next_state` and `emitted_events`, and its
/// mandatory `update` is held to them.
pub trait GameState: Sized {
    /// The state this one becomes when its update runs; by default the
    /// update changes nothing.
    open spec fn next_state(&self) -> Self {
        *self
    }

    /// The engine events the update emits, in order; by default none.
    open spec fn emitted_events(&self) -> Seq<Event<Self>> {
        Seq::empty()
    }

    /// Prepares the state before its first frame; never invoked by the loop
    /// itself.
    fn initialize(&mut self) {
    }

    /// Performs one frame of behaviour and returns the engine events emitted
    /// during the frame; the push and pop requests among them are processed
    /// by the loop once per tick, after the update returns.
    fn update(&mut self) -> (events: Vec<Event<Self>>)
        ensures
            *final(self) == old(self).next_state(),
            events@ == old(self).emitted_events(),
    ;
}

/// A library-provided state that does nothing: it ignores every input, and
/// its update changes nothing and emits no events.
pub struct IdleState {
}

impl GameState for IdleState {
    fn update(&mut self) -> (events: Vec<Event<Self>>) {
        Vec::new()
    }
}

impl InputListener for IdleState {
    fn on_close(&mut self) {
    }

    fn on_resize(&mut self, _width: u32, _height: u32) {
    }

    fn on_key_down(&mut self, _key: crate::input::keyboard::Key) {
    }

    fn on_key_up(&mut self, _key: crate::input::keyboard::Key) {
    }

    fn on_mouse_down(&mut self, _button: crate::input::mouse::Button) {
    }

    fn on_mouse_up(&mut self, _button: crate::input::mouse::Button) {
    }

    fn on_mouse_wheel_change(&mut self, _absolute: u32, _relative: i32) {
    }
}

/// The stack transition of one engine event: a push request pushes its
/// state, a pop request pops the top of a non-empty stack, and every other
/// event leaves the stack unchanged.
pub open spec fn process_one<S>(stack: Seq<S>, event: Event<S>) -> Seq<S> {
    match event {
        Event::PushStateRequest(state) => stack.push(state),
        Event::PopStateRequest => if stack.len() == 0 {
            stack
        } else {
            stack.drop_last()
        },
        _ => stack,
    }
}

/// The stack after processing a sequence of engine events in order.
pub open spec fn process_all<S>(stack: Seq<S>, events: Seq<Event<S>>) -> Seq<S>
    decreases events.len(),
{
    if events.len() == 0 {
        stack
    } else {
        process_all(process_one(stack, events.first()), events.drop_first())
    }
}

/// Processing one more event folds onto the result of the prefix.
pub proof fn lemma_process_all_snoc<S>(stack: Seq<S>, events: Seq<Event<S>>, event: Event<S>)
    ensures
        process_all(stack, events.push(event)) == process_one(process_all(stack, events), event),
    decreases events.len(),
{
    if events.len() == 0 {
        assert(events.push(event).drop_first() =~= Seq::<Event<S>>::empty());
        assert(events.push(event).first() == event);
        assert(process_all(stack, events) == stack);
        assert(process_all(process_one(stack, event), events.push(event).drop_first())
            == process_one(stack, event));
    } else {
        lemma_process_all_snoc(process_one(stack, events.first()), events.drop_first(), event);
        assert(events.push(event).first() == events.first());
        assert(events.push(event).drop_first() =~= events.drop_first().push(event));
        assert(process_all(stack, events.push(event)) == process_all(
            process_one(stack, events.first()),
            events.drop_first().push(event),
        ));
        assert(process_all(stack, events) == process_all(
            process_one(stack, events.first()),
            events.drop_first(),
        ));
    }
}

/// One tick's transition between stacks: the top state absorbs some
/// sequence of polled input events, its declared update runs exactly once,
/// and the stack requests it emits are processed in order. Only the polled
/// inputs are left open, since what the window yields depends on the
/// environment.
pub open spec fn tick_rel<S: GameState + InputListener>(pre: Seq<S>, post: Seq<S>) -> bool {
    &&& pre.len() > 0
    &&& exists|inputs: Seq<Input>|
        post == process_all(
            pre.drop_last().push((#[trigger] fold_inputs(pre.last(), inputs)).next_state()),
            fold_inputs(pre.last(), inputs).emitted_events(),
        )
}

/// The reachability of one stack from another in exactly `n` ticks.
pub open spec fn ticks_rel<S: GameState + InputListener>(pre: Seq<S>, post: Seq<S>, n: nat) -> bool
    decreases n,
{
    if n == 0 {
        post == pre
    } else {
        exists|mid: Seq<S>| #[trigger] tick_rel(pre, mid) && ticks_rel(mid, post, (n - 1) as nat)
    }
}

/// One more tick extends a tick chain by one.
pub proof fn lemma_ticks_rel_snoc<S: GameState + InputListener>(
    a: Seq<S>,
    b: Seq<S>,
    c: Seq<S>,
    n: nat,
)
    requires
        ticks_rel(a, b, n),
        tick_rel(b, c),
    ensures
        ticks_rel(a, c, n + 1),
    decreases n,
{
    if n == 0 {
        assert(b == a);
        assert(tick_rel(a, c) && ticks_rel(c, c, 0));
    } else {
        let mid = choose|mid: Seq<S>| #[trigger] tick_rel(a, mid) && ticks_rel(mid, b, (n - 1) as nat);
        lemma_ticks_rel_snoc(mid, b, c, (n - 1) as nat);
        assert(tick_rel(a, mid) && ticks_rel(mid, c, n));
    }
}

/// Law: for states that declare every input ignored, a tick is
/// deterministic whatever the window yielded: the stack becomes the old one
/// with the top replaced by its declared successor, and the requests the
/// top emits processed in order.
pub proof fn lemma_tick_input_indifferent<S: GameState + InputListener>(pre: Seq<S>, post: Seq<S>)
    requires
        tick_rel(pre, post),
        forall|s: S, input: Input| #[trigger] s.on_input_spec(input) == s,
    ensures
        post == process_all(
            pre.drop_last().push(pre.last().next_state()),
            pre.last().emitted_events(),
        ),
{
    let inputs = choose|inputs: Seq<Input>|
        post == process_all(
            pre.drop_last().push((#[trigger] fold_inputs(pre.last(), inputs)).next_state()),
            fold_inputs(pre.last(), inputs).emitted_events(),
        );
    crate::input::lemma_fold_inputs_indifferent(pre.last(), inputs);
}

/// The main loop's owned data: the state stack and the window capability.
pub struct Game<S, W> {
    state_stack: Vec<S>,
    window: W,
}

impl<S: GameState + InputListener, W: Window> Game<S, W> {
    /// The stack of states; the last element is the active state.
    pub closed spec fn states(&self) -> Seq<S> {
        self.state_stack@
    }

    /// The window capability the loop polls and presents through.
    pub closed spec fn window(&self) -> W {
        self.window
    }

    /// Creates a game over one initial state and a window.
    pub fn new(initial_state: S, window: W) -> (game: Game<S, W>)
        ensures
            game.states() == seq![initial_state],
            game.window() == window,
    {
        let mut state_stack: Vec<S> = Vec::new();
        state_stack.push(initial_state);
        let game = Game { state_stack, window };
        proof {
            assert(game.states() =~= seq![initial_state]);
        }
        game
    }

    /// Pushes a state: it becomes the active state, and the previous top is
    /// retained beneath it, paused.
    pub fn push_state(&mut self, state: S)
        ensures
            final(self).states() == old(self).states().push(state),
            final(self).window() == old(self).window(),
    {
        self.state_stack.push(state);
    }

    /// Pops and returns the active state; the state beneath, if any,
    /// resumes. On an empty stack nothing happens.
    pub fn pop_state(&mut self) -> (r: Option<S>)
        ensures
            old(self).states().len() == 0 ==> r is None && final(self).states() == old(
                self).states(),
            old(self).states().len() > 0 ==> r == Some(old(self).states().last()) && final(
                self).states() == old(self).states().drop_last(),
            final(self).window() == old(self).window(),
    {
        self.state_stack.pop()
    }

    /// The number of states on the stack.
    pub fn state_count(&self) -> (n: usize)
        ensures
            n == self.states().len(),
    {
        self.state_stack.len()
    }

    /// The active state, if the stack is not empty.
    pub fn current_state(&self) -> (r: Option<&S>)
        ensures
            self.states().len() == 0 ==> r is None,
            self.states().len() > 0 ==> (r matches Some(s) && *s == self.states().last()),
    {
        if self.state_stack.len() > 0 {
            Some(&self.state_stack[self.state_stack.len() - 1])
        } else {
            None
        }
    }

    /// Applies the stack transition of one engine event: push and pop
    /// requests move states on and off the stack; every other event leaves
    /// it unchanged.
    pub fn process_event(&mut self, event: Event<S>)
        ensures
            final(self).states() == process_one(old(self).states(), event),
            final(self).window() == old(self).window(),
    {
        match event {
            Event::PushStateRequest(state) => {
                self.state_stack.push(state);
            },
            Event::PopStateRequest => {
                let _dropped = self.state_stack.pop();
            },
            _ => {},
        }
    }

    /// Performs one tick of the main-loop protocol on a running stack:
    /// drains the window's pending events into the active state's input
    /// handlers, invokes the active state's update exactly once, then
    /// processes the emitted stack requests in order — exactly the tick
    /// transition. On an empty stack it does nothing and reports the loop
    /// halted.
    pub fn step(&mut self) -> (running: bool)
        ensures
            !running ==> old(self).states().len() == 0 && *final(self) == *old(self),
            running ==> old(self).states().len() > 0 && tick_rel(
                old(self).states(),
                final(self).states(),
            ),
    {
        if self.state_stack.len() == 0 {
            return false;
        }
        let ghost orig = self.state_stack@;
        let mut top = match self.state_stack.pop() {
            Some(state) => state,
            None => vstd::pervasive::unreached(),
        };
        let ghost rest = self.state_stack@;
        let ghost mut inputs: Seq<Input> = Seq::empty();
        // drain the window's pending events into the active state's handlers
        loop
            invariant
                self.state_stack@ == rest,
                top == fold_inputs(orig.last(), inputs),
            decreases self.window.pending(),
        {
            let polled = self.window.poll_event();
            match polled {
                Some(window_event) => {
                    let input = translate_event(window_event);
                    let ghost pre_inputs = inputs;
                    dispatch_input(&mut top, input);
                    proof {
                        inputs = pre_inputs.push(input);
                        lemma_fold_inputs_snoc(orig.last(), pre_inputs, input);
                    }
                },
                None => {
                    break;
                },
            }
        }
        let ghost folded = top;
        // invoke the active state's update exactly once
        let mut events = top.update();
        let ghost mid = top;
        self.state_stack.push(top);
        let ghost base = self.state_stack@;
        let ghost all_events = events@;
        proof {
            assert(mid == folded.next_state());
            assert(all_events == folded.emitted_events());
            assert(base =~= orig.drop_last().push(mid));
            assert(all_events.take(0) =~= Seq::<Event<S>>::empty());
        }
        // process the emitted stack requests, in order
        while events.len() > 0
            invariant
                events@.len() <= all_events.len(),
                events@ == all_events.skip(all_events.len() - events@.len()),
                self.state_stack@ == process_all(
                    base,
                    all_events.take(all_events.len() - events@.len()),
                ),
            decreases events@.len(),
        {
            let ghost idx = all_events.len() - events@.len();
            let event = events.remove(0);
            proof {
                assert(event == all_events[idx]);
                assert(events@ =~= all_events.skip(idx + 1));
            }
            self.process_event(event);
            proof {
                assert(all_events.take(idx + 1) =~= all_events.take(idx).push(all_events[idx]));
                lemma_process_all_snoc(base, all_events.take(idx), all_events[idx]);
            }
        }
        proof {
            assert(all_events.take(all_events.len() as int) =~= all_events);
            assert(self.state_stack@ == process_all(
                orig.drop_last().push(fold_inputs(orig.last(), inputs).next_state()),
                fold_inputs(orig.last(), inputs).emitted_events(),
            ));
        }
        true
    }

    /// Runs the main loop for at most `max_ticks` ticks, stopping early when
    /// the stack empties, and returns the unspent ticks: a positive result
    /// means the loop halted because the stack was empty. The final stack is
    /// whatever the spent ticks' transitions lead to.
    pub fn run(&mut self, max_ticks: u64) -> (unspent: u64)
        ensures
            unspent <= max_ticks,
            ticks_rel(old(self).states(), final(self).states(), (max_ticks - unspent) as nat),
            unspent > 0 ==> final(self).states().len() == 0,
            old(self).states().len() == 0 ==> unspent == max_ticks && *final(self) == *old(self),
    {
        let mut remaining: u64 = max_ticks;
        proof {
            assert(ticks_rel(old(self).states(), self.states(), 0));
        }
        while remaining > 0
            invariant
                remaining <= max_ticks,
                ticks_rel(old(self).states(), self.states(), (max_ticks - remaining) as nat),
                old(self).states().len() == 0 ==> remaining == max_ticks && *self == *old(self),
            decreases remaining,
        {
            let ghost pre_states = self.state_stack@;
            let running = self.step();
            if !running {
                return remaining;
            }
            proof {
                lemma_ticks_rel_snoc(
                    old(self).states(),
                    pre_states,
                    self.state_stack@,
                    (max_ticks - remaining) as nat,
                );
            }
            remaining -= 1;
        }
        0
    }
}

} // verus!
