//! The decisions of the presentation loop.
//!
//! The program around this crate owns the window and the graphics device. It
//! hands every event of the window to [`App::window_event`] and every failure
//! to present a frame to [`App::render_failed`], and does what the
//! [`Action`] that comes back says.
use crate::fragment::{FragmentState, Key};
use crate::rounding::Precision;
use crate::state::{State, StateView};
use crate::uniform::FragmentUniform;
use vstd::prelude::*;

verus! {

/// What the window reports.
#[derive(Clone, Copy, PartialEq, Eq, Structural, Debug)]
pub enum WindowEvent {
    /// The user asked for the window to be closed.
    CloseRequested,
    /// The window has a new size, in pixels.
    Resized { width: u32, height: u32 },
    /// The window wants its content drawn.
    RedrawRequested,
    /// A key went down (`pressed`) or up.
    KeyboardInput { key: Key, pressed: bool },
    /// Anything else.
    Other,
}

/// Why a frame could not be presented.
#[derive(Clone, Copy, PartialEq, Eq, Structural, Debug)]
pub enum SurfaceError {
    /// The surface was lost and has to be made again.
    Lost,
    /// The surface no longer fits the window.
    Outdated,
    /// The device has no memory left.
    OutOfMemory,
    /// The device failed in a way it does not recover from.
    Device,
    /// No frame came in time.
    Timeout,
}

/// What the program has to do next.
#[derive(Clone, Copy, PartialEq, Eq, Debug)]
pub enum Action {
    /// Leave the event loop.
    Exit,
    /// Make the presentation surface anew, for a window of this size.
    Configure { width: u32, height: u32 },
    /// Draw one frame: first copy `upload`, if there is one, into the uniform
    /// buffer, then submit the one draw.
    Draw { upload: Option<FragmentUniform> },
    /// Show the current parameters to the user.
    Report,
    /// Ask the window for a redraw.
    Redraw,
    /// Nothing.
    Nothing,
}

/// The state after an event of the window, and what the program has to do.
///
/// As long as there is no state, nothing happens. A request to close, and
/// Escape going down, end the loop. The I key going down asks for a report
/// and changes nothing. Any other key goes to the state, and a redraw is
/// asked for if the key moves the view. A new size goes to the state, and
/// the surface is made anew for it, unless the size has no pixels. A request
/// to redraw hands out the pending upload and asks for the draw.
pub open spec fn after_event(state: Option<StateView>, event: WindowEvent) -> (
    Option<StateView>,
    Action,
) {
    match state {
        None => (None, Action::Nothing),
        Some(s) => match event {
            WindowEvent::CloseRequested => (state, Action::Exit),
            WindowEvent::Resized { width, height } => (
                Some(s.resized(width, height)),
                if width > 0 && height > 0 {
                    Action::Configure { width, height }
                } else {
                    Action::Nothing
                },
            ),
            WindowEvent::RedrawRequested => (
                Some(s.updated()),
                Action::Draw { upload: s.pending() },
            ),
            WindowEvent::KeyboardInput { key, pressed } => if !pressed {
                (state, Action::Nothing)
            } else if key == Key::Escape {
                (state, Action::Exit)
            } else if key == Key::KeyI {
                (state, Action::Report)
            } else {
                (
                    Some(s.after_input(key, true)),
                    if key.moves_view() {
                        Action::Redraw
                    } else {
                        Action::Nothing
                    },
                )
            },
            WindowEvent::Other => (state, Action::Nothing),
        },
    }
}

/// The state after a frame could not be presented, and what the program has
/// to do.
///
/// A surface that was lost or is outdated is made anew at the current size,
/// as after a resize, and the next frame tries again. Without memory, or
/// with a device that failed for good, the program ends. A frame that did
/// not come in time is passed over.
pub open spec fn after_failure(state: Option<StateView>, error: SurfaceError) -> (
    Option<StateView>,
    Action,
) {
    match state {
        None => (None, Action::Nothing),
        Some(s) => match error {
            SurfaceError::Lost | SurfaceError::Outdated => after_event(
                state,
                WindowEvent::Resized {
                    width: s.fragment_state.size.0,
                    height: s.fragment_state.size.1,
                },
            ),
            SurfaceError::OutOfMemory | SurfaceError::Device => (state, Action::Exit),
            SurfaceError::Timeout => (state, Action::Nothing),
        },
    }
}

/// The presentation loop's side of the program: the state, once the window
/// is there.
pub struct App {
    state: Option<State>,
}

impl View for App {
    type V = Option<StateView>;

    closed spec fn view(&self) -> Option<StateView> {
        match self.state {
            Some(s) => Some(s@),
            None => None,
        }
    }
}

impl App {
    /// An application without a state: its window is not there yet.
    pub fn new() -> (r: App)
        ensures
            r@ is None,
    {
        App { state: None }
    }

    /// The window is there: the state starts from the given view, dirty.
    pub fn resumed(&mut self, fragment_state: FragmentState, precision: Precision)
        ensures
            final(self)@ == Some(StateView { fragment_state, precision, dirty: true }),
    {
        self.state = Some(State::new(fragment_state, precision));
    }

    /// Takes a state that was made elsewhere.
    pub fn user_event(&mut self, state: State)
        ensures
            final(self)@ == Some(state@),
    {
        self.state = Some(state);
    }

    /// The state, if there is one.
    pub fn state(&self) -> (r: Option<&State>)
        ensures
            match r {
                Some(s) => self@ == Some(s@),
                None => self@ is None,
            },
    {
        self.state.as_ref()
    }

    /// Takes an event of the window and says what to do.
    pub fn window_event(&mut self, event: WindowEvent) -> (action: Action)
        ensures
            (final(self)@, action) == after_event(old(self)@, event),
    {
        match &mut self.state {
            None => Action::Nothing,
            Some(state) => match event {
                WindowEvent::CloseRequested => Action::Exit,
                WindowEvent::Resized { width, height } => {
                    state.resize(width, height);
                    if width > 0 && height > 0 {
                        Action::Configure { width, height }
                    } else {
                        Action::Nothing
                    }
                },
                WindowEvent::RedrawRequested => Action::Draw { upload: state.update() },
                WindowEvent::KeyboardInput { key, pressed } => {
                    if !pressed {
                        Action::Nothing
                    } else if key == Key::Escape {
                        Action::Exit
                    } else if key == Key::KeyI {
                        Action::Report
                    } else if state.input(key, true) {
                        Action::Redraw
                    } else {
                        Action::Nothing
                    }
                },
                WindowEvent::Other => Action::Nothing,
            },
        }
    }

    /// Takes the failure to present a frame and says what to do.
    pub fn render_failed(&mut self, error: SurfaceError) -> (action: Action)
        ensures
            (final(self)@, action) == after_failure(old(self)@, error),
    {
        let size = match &self.state {
            None => {
                return Action::Nothing;
            },
            Some(state) => state.fragment_state().size,
        };
        match error {
            SurfaceError::Lost | SurfaceError::Outdated => self.window_event(
                WindowEvent::Resized { width: size.0, height: size.1 },
            ),
            SurfaceError::OutOfMemory | SurfaceError::Device => Action::Exit,
            SurfaceError::Timeout => Action::Nothing,
        }
    }
}

/// What the uniform buffer holds after the program carried out an action:
/// the record that a draw uploaded, else what it held before.
pub open spec fn device_after(device: Option<FragmentUniform>, action: Action) -> Option<
    FragmentUniform,
> {
    match action {
        Action::Draw { upload: Some(record) } => Some(record),
        _ => device,
    }
}

/// The uniform buffer is in step with the state: the state is dirty, or the
/// buffer holds the record of the current view.
pub open spec fn in_step(state: Option<StateView>, device: Option<FragmentUniform>) -> bool {
    match state {
        Some(s) => s.dirty || device == Some(s.fragment_state.uniform(s.precision)),
        None => true,
    }
}

/// Whatever happens, a clean state means that the device holds the record of
/// the current view: the uploads that the dirty flag saves are never missed.
pub proof fn lemma_device_stays_in_step(
    state: Option<StateView>,
    device: Option<FragmentUniform>,
    event: WindowEvent,
    error: SurfaceError,
)
    requires
        in_step(state, device),
    ensures
        in_step(after_event(state, event).0, device_after(device, after_event(state, event).1)),
        in_step(
            after_failure(state, error).0,
            device_after(device, after_failure(state, error).1),
        ),
{
}

/// The dirty flag moves as it should: a key that moves the view and a resize
/// make the state dirty, a redraw makes it clean, and nothing else touches
/// it. Every request to redraw is answered by one draw, which uploads if and
/// only if the state was dirty.
pub proof fn lemma_dirty_flag_transitions(s: StateView, event: WindowEvent)
    ensures
        ({
            let (next, action) = after_event(Some(s), event);
            &&& next matches Some(n)
            &&& match event {
                WindowEvent::RedrawRequested => {
                    &&& !n.dirty
                    &&& action matches Action::Draw { upload }
                    &&& upload is Some <==> s.dirty
                },
                WindowEvent::KeyboardInput { key, pressed } => n.dirty == (s.dirty || (pressed
                    && key.moves_view())) && !(action is Draw),
                WindowEvent::Resized { width, height } => n.dirty == (s.dirty || (width > 0
                    && height > 0)) && !(action is Draw),
                _ => n.dirty == s.dirty && !(action is Draw),
            }
        }),
{
}

} // verus!
