//! The view together with the flag that says whether the graphics device
//! still has to be told of it.
//!
//! The record on the device is uploaded only when the view has changed since
//! the last upload. A state is *dirty* while the device lags behind and
//! *clean* once it has caught up; it starts dirty, so that the first frame
//! uploads.
use crate::fragment::{FragmentState, Key};
use crate::rounding::Precision;
use crate::uniform::FragmentUniform;
use vstd::prelude::*;

verus! {

/// What a [`State`] stands for.
pub struct StateView {
    /// The view.
    pub fragment_state: FragmentState,
    /// The precision of the records made for the device.
    pub precision: Precision,
    /// The device does not hold the record of the view yet.
    pub dirty: bool,
}

impl StateView {
    /// After the screen took a new size: the view has that size, and the
    /// device lags. A size without pixels, as of a minimized window, is
    /// passed over.
    pub open spec fn resized(self, width: u32, height: u32) -> StateView {
        if width > 0 && height > 0 {
            StateView {
                fragment_state: FragmentState { size: (width, height), ..self.fragment_state },
                dirty: true,
                ..self
            }
        } else {
            self
        }
    }

    /// After a key went down or up: a key that goes down acts on the view,
    /// and where it is one that moves the view, the device lags.
    pub open spec fn after_input(self, key: Key, pressed: bool) -> StateView {
        if pressed {
            StateView {
                fragment_state: self.fragment_state.after_key(key),
                dirty: self.dirty || key.moves_view(),
                ..self
            }
        } else {
            self
        }
    }

    /// What has to be uploaded before the next frame is drawn: the record of
    /// the view if the device lags, nothing otherwise.
    pub open spec fn pending(self) -> Option<FragmentUniform> {
        if self.dirty {
            Some(self.fragment_state.uniform(self.precision))
        } else {
            None
        }
    }

    /// After the upload for a frame was handed out.
    pub open spec fn updated(self) -> StateView {
        StateView { dirty: false, ..self }
    }
}

/// The view and its dirty flag.
pub struct State {
    fragment_state: FragmentState,
    precision: Precision,
    dirty: bool,
}

impl View for State {
    type V = StateView;

    closed spec fn view(&self) -> StateView {
        StateView {
            fragment_state: self.fragment_state,
            precision: self.precision,
            dirty: self.dirty,
        }
    }
}

impl State {
    /// A state for the given view. It is dirty: the first frame uploads.
    pub fn new(fragment_state: FragmentState, precision: Precision) -> (r: State)
        ensures
            r@ == (StateView { fragment_state, precision, dirty: true }),
    {
        State { fragment_state, precision, dirty: true }
    }

    pub fn fragment_state(&self) -> (r: &FragmentState)
        ensures
            *r == self@.fragment_state,
    {
        &self.fragment_state
    }

    pub fn precision(&self) -> (r: Precision)
        ensures
            r == self@.precision,
    {
        self.precision
    }

    pub fn is_dirty(&self) -> (r: bool)
        ensures
            r == self@.dirty,
    {
        self.dirty
    }

    /// Takes a new size of the screen.
    pub fn resize(&mut self, width: u32, height: u32)
        ensures
            final(self)@ == old(self)@.resized(width, height),
            old(self)@.fragment_state.wf() ==> final(self)@.fragment_state.wf(),
    {
        if width > 0 && height > 0 {
            self.fragment_state.size = (width, height);
            self.dirty = true;
        }
    }

    /// Takes a key that went down or up, and tells whether a new frame has
    /// to be drawn.
    pub fn input(&mut self, key: Key, pressed: bool) -> (redraw_needed: bool)
        ensures
            final(self)@ == old(self)@.after_input(key, pressed),
            redraw_needed == (pressed && key.moves_view()),
            old(self)@.fragment_state.wf() ==> final(self)@.fragment_state.wf(),
    {
        if pressed {
            let redraw_needed = self.fragment_state.handle_key_pressed(key);
            if redraw_needed {
                self.dirty = true;
            }
            redraw_needed
        } else {
            false
        }
    }

    /// Hands out what has to be uploaded before the next frame is drawn, and
    /// leaves the state clean.
    pub fn update(&mut self) -> (upload: Option<FragmentUniform>)
        ensures
            upload == old(self)@.pending(),
            final(self)@ == old(self)@.updated(),
    {
        if self.dirty {
            self.dirty = false;
            Some(self.fragment_state.fragment_uniform(self.precision))
        } else {
            None
        }
    }
}

} // verus!
