//! Normalized input events and the listener capability consumed by game
//! states.

pub mod keyboard;
pub mod mouse;

use vstd::prelude::*;

verus! {

/// A normalized input event, as delivered to the active game state.
#[derive(Clone, Copy, Debug)]
pub enum Input {
    /// Window close
    Close,
    /// Window resize (width, height)
    Resize(u32, u32),
    /// Keyboard key down
    KeyDown(keyboard::Key),
    /// Keyboard key up
    KeyUp(keyboard::Key),
    /// Mouse button down
    MouseDown(mouse::Button),
    /// Mouse button up
    MouseUp(mouse::Button),
    /// Mouse wheel event (absolute, relative)
    MouseWheelChange(u32, i32),
    NoOp,
}

/// Trait for input listeners.
///
/// A listener declares its reaction to each input event as the specification
/// `on_input_spec` — by default every event is ignored — and implements one
/// handler per event kind, each held to the declared reaction.
pub trait InputListener: Sized {
    /// The listener's state after receiving `input`; by default the input is
    /// ignored.
    open spec fn on_input_spec(&self, input: Input) -> Self {
        *self
    }

    fn on_close(&mut self)
        ensures
            *final(self) == old(self).on_input_spec(Input::Close),
    ;

    fn on_resize(&mut self, width: u32, height: u32)
        ensures
            *final(self) == old(self).on_input_spec(Input::Resize(width, height)),
    ;

    fn on_key_down(&mut self, key: keyboard::Key)
        ensures
            *final(self) == old(self).on_input_spec(Input::KeyDown(key)),
    ;

    fn on_key_up(&mut self, key: keyboard::Key)
        ensures
            *final(self) == old(self).on_input_spec(Input::KeyUp(key)),
    ;

    fn on_mouse_down(&mut self, button: mouse::Button)
        ensures
            *final(self) == old(self).on_input_spec(Input::MouseDown(button)),
    ;

    fn on_mouse_up(&mut self, button: mouse::Button)
        ensures
            *final(self) == old(self).on_input_spec(Input::MouseUp(button)),
    ;

    fn on_mouse_wheel_change(&mut self, absolute: u32, relative: i32)
        ensures
            *final(self) == old(self).on_input_spec(Input::MouseWheelChange(absolute, relative)),
    ;
}

/// The listener's state after one input event was dispatched to it: its
/// declared reaction for every event kind with a handler, and unchanged for
/// `Input::NoOp`, which has none.
pub open spec fn dispatch_input_spec<L: InputListener>(listener: L, input: Input) -> L {
    if input is NoOp {
        listener
    } else {
        listener.on_input_spec(input)
    }
}

/// The listener's state after a sequence of input events was dispatched to
/// it, in order.
pub open spec fn fold_inputs<L: InputListener>(listener: L, inputs: Seq<Input>) -> L
    decreases inputs.len(),
{
    if inputs.len() == 0 {
        listener
    } else {
        fold_inputs(dispatch_input_spec(listener, inputs.first()), inputs.drop_first())
    }
}

/// Dispatching one more input folds onto the result of the prefix.
pub proof fn lemma_fold_inputs_snoc<L: InputListener>(
    listener: L,
    inputs: Seq<Input>,
    input: Input,
)
    ensures
        fold_inputs(listener, inputs.push(input)) == dispatch_input_spec(
            fold_inputs(listener, inputs),
            input,
        ),
    decreases inputs.len(),
{
    if inputs.len() == 0 {
        assert(inputs.push(input).drop_first() =~= Seq::<Input>::empty());
        assert(inputs.push(input).first() == input);
        assert(fold_inputs(listener, inputs) == listener);
        assert(fold_inputs(
            dispatch_input_spec(listener, input),
            inputs.push(input).drop_first(),
        ) == dispatch_input_spec(listener, input));
    } else {
        lemma_fold_inputs_snoc(
            dispatch_input_spec(listener, inputs.first()),
            inputs.drop_first(),
            input,
        );
        assert(inputs.push(input).first() == inputs.first());
        assert(inputs.push(input).drop_first() =~= inputs.drop_first().push(input));
        assert(fold_inputs(listener, inputs.push(input)) == fold_inputs(
            dispatch_input_spec(listener, inputs.first()),
            inputs.drop_first().push(input),
        ));
        assert(fold_inputs(listener, inputs) == fold_inputs(
            dispatch_input_spec(listener, inputs.first()),
            inputs.drop_first(),
        ));
    }
}

/// A listener that declares every input ignored is left unchanged by any
/// sequence of dispatched inputs.
pub proof fn lemma_fold_inputs_indifferent<L: InputListener>(listener: L, inputs: Seq<Input>)
    requires
        forall|l: L, input: Input| #[trigger] l.on_input_spec(input) == l,
    ensures
        fold_inputs(listener, inputs) == listener,
    decreases inputs.len(),
{
    if inputs.len() > 0 {
        assert(dispatch_input_spec(listener, inputs.first()) == listener);
        lemma_fold_inputs_indifferent(listener, inputs.drop_first());
    }
}

/// Invokes the handler matching the given input event on the listener: one
/// handler per event kind, and no handler at all for `Input::NoOp`, which
/// therefore leaves the listener unchanged.
pub fn dispatch_input<L: InputListener>(listener: &mut L, input: Input)
    ensures
        *final(listener) == dispatch_input_spec(*old(listener), input),
        input is NoOp ==> *final(listener) == *old(listener),
{
    match input {
        Input::Close => listener.on_close(),
        Input::Resize(width, height) => listener.on_resize(width, height),
        Input::KeyDown(key) => listener.on_key_down(key),
        Input::KeyUp(key) => listener.on_key_up(key),
        Input::MouseDown(button) => listener.on_mouse_down(button),
        Input::MouseUp(button) => listener.on_mouse_up(button),
        Input::MouseWheelChange(absolute, relative) => {
            listener.on_mouse_wheel_change(absolute, relative)
        },
        Input::NoOp => {},
    }
}

} // verus!
