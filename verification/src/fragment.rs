//! The parameters of the view, and what the keyboard does to them.
use crate::ieee::{Binary64, INFINITY};
use crate::scaling::lemma_zoom_keeps_positive;
use vstd::prelude::*;

verus! {

/// Encoding of `1.05`, the factor of one zoom step.
pub const ZOOM_FACTOR: u64 = 0x3ff0_cccc_cccc_cccd;

/// Encoding of `0.01`, the part of the scale that one pan step moves the
/// center by.
pub const TRANSFORM_STEP: u64 = 0x3f84_7ae1_47ae_147b;

/// What one key press adds to, or takes from, the iteration cap.
pub const ITERATION_STEP: u32 = 200;

/// Encoding of `2.0`, the scale of the default view.
pub const DEFAULT_SCALE: u64 = 0x4000_0000_0000_0000;

/// Encoding of `-0.5`, the real part of the default center.
pub const DEFAULT_CENTER_RE: u64 = 0xbfe0_0000_0000_0000;

/// The factor of one zoom step, as a value.
pub open spec fn zoom_factor() -> Binary64 {
    Binary64 { bits: ZOOM_FACTOR }
}

/// The part of the scale that one pan step covers, as a value.
pub open spec fn transform_step() -> Binary64 {
    Binary64 { bits: TRANSFORM_STEP }
}

/// The keys the viewer knows, by what is printed on them.
#[derive(Clone, Copy, PartialEq, Eq, Structural, Debug)]
pub enum Key {
    /// Pan left.
    KeyA,
    /// Pan right.
    KeyD,
    /// Pan up.
    KeyW,
    /// Pan down.
    KeyS,
    /// Zoom in.
    ArrowUp,
    /// Zoom out.
    ArrowDown,
    /// Fewer iterations.
    ArrowLeft,
    /// More iterations.
    ArrowRight,
    /// Show the parameters.
    KeyI,
    /// Leave.
    Escape,
    /// Any other key.
    Other,
}

impl Key {
    /// The key asks for a change of the view, and so for a new frame.
    pub open spec fn moves_view(self) -> bool {
        match self {
            Key::KeyA
            | Key::KeyD
            | Key::KeyW
            | Key::KeyS
            | Key::ArrowUp
            | Key::ArrowDown
            | Key::ArrowLeft
            | Key::ArrowRight => true,
            _ => false,
        }
    }
}

/// The view: which part of the plane is shown, how large, and how deep the
/// iteration goes.
#[derive(Clone, Copy, PartialEq, Eq, Debug)]
pub struct FragmentState {
    /// Width and height of the screen, in pixels.
    pub size: (u32, u32),
    /// Cap on the iterations spent on one pixel.
    pub max_iterations: u32,
    /// Extent of the view in the plane; smaller is closer.
    pub scale: Binary64,
    /// Real and imaginary part of the point at the middle of the screen.
    pub center: (Binary64, Binary64),
}

impl FragmentState {
    /// The invariant of a view: the scale is a positive number (infinity
    /// counts, zero and NaN do not) and the screen has pixels.
    pub open spec fn wf(self) -> bool {
        &&& 0 < self.scale.bits <= INFINITY
        &&& self.size.0 > 0
        &&& self.size.1 > 0
    }

    /// The view the viewer starts with: 800 by 600 pixels, 200 iterations,
    /// scale 2, centered on -0.5.
    pub open spec fn initial() -> FragmentState {
        FragmentState {
            size: (800, 600),
            max_iterations: 200,
            scale: Binary64 { bits: DEFAULT_SCALE },
            center: (Binary64 { bits: DEFAULT_CENTER_RE }, Binary64 { bits: 0 }),
        }
    }

    /// The same view at another scale.
    pub open spec fn with_scale(self, scale: Binary64) -> FragmentState {
        FragmentState { scale, ..self }
    }

    /// How far one pan step moves the center: a hundredth of the scale, so
    /// that a step covers the same part of the screen at every zoom.
    pub open spec fn pan_step(self) -> Binary64 {
        transform_step().product(self.scale)
    }

    /// The view after a key was pressed.
    ///
    /// A and D move the center along the real axis, W and S along the
    /// imaginary one, each by [`Self::pan_step`]. Up divides the scale by
    /// [`ZOOM_FACTOR`], Down multiplies it. Right adds [`ITERATION_STEP`] to
    /// the iteration cap and Left takes it away; the cap stops at 0 and at
    /// the largest `u32`. No other key changes anything.
    pub open spec fn after_key(self, key: Key) -> FragmentState {
        let step = self.pan_step();
        let zoom = zoom_factor();
        match key {
            Key::KeyA => FragmentState {
                center: (self.center.0.difference(step), self.center.1),
                ..self
            },
            Key::KeyD => FragmentState {
                center: (self.center.0.sum(step), self.center.1),
                ..self
            },
            Key::KeyW => FragmentState {
                center: (self.center.0, self.center.1.sum(step)),
                ..self
            },
            Key::KeyS => FragmentState {
                center: (self.center.0, self.center.1.difference(step)),
                ..self
            },
            Key::ArrowUp => FragmentState { scale: self.scale.quotient(zoom), ..self },
            Key::ArrowDown => FragmentState { scale: self.scale.product(zoom), ..self },
            Key::ArrowLeft => FragmentState {
                max_iterations: if self.max_iterations >= ITERATION_STEP {
                    (self.max_iterations - ITERATION_STEP) as u32
                } else {
                    0
                },
                ..self
            },
            Key::ArrowRight => FragmentState {
                max_iterations: if self.max_iterations + ITERATION_STEP <= u32::MAX {
                    (self.max_iterations + ITERATION_STEP) as u32
                } else {
                    u32::MAX
                },
                ..self
            },
            _ => self,
        }
    }

    /// Applies a key press and tells whether the picture has to be drawn
    /// again. That is so for each of the eight keys that move the view, also
    /// when the iteration cap already stood at its end.
    pub fn handle_key_pressed(&mut self, key: Key) -> (redraw_needed: bool)
        ensures
            *final(self) == old(self).after_key(key),
            redraw_needed == key.moves_view(),
            old(self).wf() ==> final(self).wf(),
    {
        let step = Binary64 { bits: TRANSFORM_STEP }.times(self.scale);
        let zoom = Binary64 { bits: ZOOM_FACTOR };
        proof {
            if self.wf() {
                lemma_zoom_keeps_positive(self.scale);
            }
        }
        match key {
            Key::KeyA => {
                self.center.0 = self.center.0.minus(step);
                true
            },
            Key::KeyD => {
                self.center.0 = self.center.0.plus(step);
                true
            },
            Key::KeyW => {
                self.center.1 = self.center.1.plus(step);
                true
            },
            Key::KeyS => {
                self.center.1 = self.center.1.minus(step);
                true
            },
            Key::ArrowUp => {
                self.scale = self.scale.over(zoom);
                true
            },
            Key::ArrowDown => {
                self.scale = self.scale.times(zoom);
                true
            },
            Key::ArrowLeft => {
                self.max_iterations = if self.max_iterations >= ITERATION_STEP {
                    self.max_iterations - ITERATION_STEP
                } else {
                    0
                };
                true
            },
            Key::ArrowRight => {
                self.max_iterations = if self.max_iterations <= u32::MAX - ITERATION_STEP {
                    self.max_iterations + ITERATION_STEP
                } else {
                    u32::MAX
                };
                true
            },
            _ => false,
        }
    }
}

impl Default for FragmentState {
    fn default() -> (r: FragmentState)
        ensures
            r == FragmentState::initial(),
            r.wf(),
    {
        FragmentState {
            size: (800, 600),
            max_iterations: 200,
            scale: Binary64 { bits: DEFAULT_SCALE },
            center: (Binary64 { bits: DEFAULT_CENTER_RE }, Binary64 { bits: 0 }),
        }
    }
}

/// Taking iterations away never wraps around: the cap goes down by
/// [`ITERATION_STEP`], or to 0 where it was less than that.
pub proof fn lemma_iterations_stop_at_zero(state: FragmentState)
    ensures
        0 <= state.after_key(Key::ArrowLeft).max_iterations <= state.max_iterations,
        state.max_iterations >= ITERATION_STEP ==> state.after_key(Key::ArrowLeft).max_iterations
            == state.max_iterations - ITERATION_STEP,
        state.max_iterations < ITERATION_STEP ==> state.after_key(Key::ArrowLeft).max_iterations
            == 0,
{
}

/// A key changes at most one of center, scale and iteration cap, and never
/// the size of the screen.
pub proof fn lemma_key_changes_one_parameter(state: FragmentState, key: Key)
    ensures
        ({
            let next = state.after_key(key);
            &&& next.size == state.size
            &&& next.center == state.center && next.scale == state.scale || next.center
                == state.center && next.max_iterations == state.max_iterations || next.scale
                == state.scale && next.max_iterations == state.max_iterations
            &&& !key.moves_view() ==> next == state
        }),
{
}

/// What the program says when its command line is refused.
pub const USAGE: &'static str = "Usage:
    mandelbrot [<iterations> <center real> <center imag> <width> <height>]
    or
    mandelbrot [<iterations> <center real> <center imag>]
    or
    mandelbrot [<iterations>]
    ";

/// Why a command line is refused.
#[derive(Clone, Copy, PartialEq, Eq, Structural, Debug)]
pub enum UsageError {
    /// There are not 0, 1, 3 or 5 arguments.
    ArgumentCount,
    /// An argument is not the number it has to be.
    MalformedNumber,
    /// The width or the height is 0.
    EmptyScreen,
}

/// One argument of the command line: its text and, where the text is a
/// decimal or special-value literal of a real number, the binary64 value
/// nearest to it.
pub struct Argument {
    pub text: String,
    pub number: Option<Binary64>,
}

/// The number written with the given decimal digits, most significant first;
/// `None` if one of them is no ASCII digit. The empty sequence writes 0.
pub open spec fn decimal(digits: Seq<char>) -> Option<nat>
    decreases digits.len(),
{
    if digits.len() == 0 {
        Some(0)
    } else {
        let code = digits.last() as u32;
        match decimal(digits.drop_last()) {
            Some(v) => if 48 <= code <= 57 {
                Some((v * 10 + (code - 48)) as nat)
            } else {
                None
            },
            None => None,
        }
    }
}

/// The count that a text denotes: one or more ASCII digits, after at most one
/// `+`, that write a number no larger than the largest `u32`.
pub open spec fn count_of(text: Seq<char>) -> Option<u32> {
    let digits = if text.len() > 0 && text[0] == '+' {
        text.subrange(1, text.len() as int)
    } else {
        text
    };
    if digits.len() == 0 {
        None
    } else {
        match decimal(digits) {
            Some(v) => if v <= u32::MAX {
                Some(v as u32)
            } else {
                None
            },
            None => None,
        }
    }
}

/// Reads a count, or says that the command line is malformed.
pub fn parse_or_usage(s: &str) -> (r: Result<u32, UsageError>)
    ensures
        r == match count_of(s@) {
            Some(v) => Ok::<u32, UsageError>(v),
            None => Err(UsageError::MalformedNumber),
        },
{
    let len = s.unicode_len();
    let start: usize = if len > 0 && s.get_char(0) == '+' {
        1
    } else {
        0
    };
    if start == len {
        assert(s@.subrange(start as int, len as int).len() == 0);
        return Err(UsageError::MalformedNumber);
    }
    let mut valid = true;
    let mut value: u64 = 0;
    let mut i = start;
    assert(s@.subrange(start as int, start as int).len() == 0);
    while i < len
        invariant
            start <= i <= len,
            len == s@.len(),
            value <= u32::MAX + 1,
            match decimal(s@.subrange(start as int, i as int)) {
                Some(v) => valid && value == if v <= u32::MAX {
                    v
                } else {
                    (u32::MAX + 1) as nat
                },
                None => !valid,
            },
        decreases len - i,
    {
        let code = s.get_char(i) as u32;
        proof {
            let longer = s@.subrange(start as int, i + 1);
            assert(longer.drop_last() == s@.subrange(start as int, i as int));
            assert(longer.last() == s@[i as int]);
        }
        if code < 48 || code > 57 {
            valid = false;
        } else if valid {
            let next = value * 10 + (code - 48) as u64;
            value = if next > u32::MAX as u64 {
                u32::MAX as u64 + 1
            } else {
                next
            };
        }
        i = i + 1;
    }
    assert(s@.subrange(start as int, len as int) == if start == 1 {
        s@.subrange(1, s@.len() as int)
    } else {
        s@
    });
    if valid && value <= u32::MAX as u64 {
        Ok(value as u32)
    } else {
        Err(UsageError::MalformedNumber)
    }
}

impl FragmentState {
    /// The view that a command line asks for.
    ///
    /// No argument asks for the initial view. One argument sets the iteration
    /// cap; three set the cap and the center; five set the cap, the center and
    /// the size of the screen. The cap and the size are counts, the two parts
    /// of the center are real numbers.
    pub open spec fn of_args(args: Seq<Argument>) -> Result<FragmentState, UsageError> {
        let n = args.len();
        if n != 0 && n != 1 && n != 3 && n != 5 {
            Err(UsageError::ArgumentCount)
        } else if n == 0 {
            Ok(Self::initial())
        } else {
            match count_of(args[0].text@) {
                None => Err(UsageError::MalformedNumber),
                Some(max_iterations) => if n == 1 {
                    Ok(FragmentState { max_iterations, ..Self::initial() })
                } else {
                    match (args[1].number, args[2].number) {
                        (Some(re), Some(im)) => if n == 3 {
                            Ok(FragmentState { max_iterations, center: (re, im), ..Self::initial() })
                        } else {
                            match (count_of(args[3].text@), count_of(args[4].text@)) {
                                (Some(width), Some(height)) => if width == 0 || height == 0 {
                                    Err(UsageError::EmptyScreen)
                                } else {
                                    Ok(
                                        FragmentState {
                                            size: (width, height),
                                            max_iterations,
                                            center: (re, im),
                                            ..Self::initial()
                                        },
                                    )
                                },
                                _ => Err(UsageError::MalformedNumber),
                            }
                        },
                        _ => Err(UsageError::MalformedNumber),
                    }
                },
            }
        }
    }

    /// The view that a command line asks for, or why the line is refused.
    pub fn from_args(args: &Vec<Argument>) -> (r: Result<FragmentState, UsageError>)
        ensures
            r == Self::of_args(args@),
            r matches Ok(state) ==> state.wf(),
    {
        let n = args.len();
        let mut state = FragmentState::default();
        if n != 0 && n != 1 && n != 3 && n != 5 {
            return Err(UsageError::ArgumentCount);
        }
        if n == 0 {
            return Ok(state);
        }
        match parse_or_usage(args[0].text.as_str()) {
            Ok(max_iterations) => {
                state.max_iterations = max_iterations;
            },
            Err(e) => {
                return Err(e);
            },
        }
        if n == 1 {
            return Ok(state);
        }
        match (args[1].number, args[2].number) {
            (Some(re), Some(im)) => {
                state.center = (re, im);
            },
            _ => {
                return Err(UsageError::MalformedNumber);
            },
        }
        if n == 3 {
            return Ok(state);
        }
        match (parse_or_usage(args[3].text.as_str()), parse_or_usage(args[4].text.as_str())) {
            (Ok(width), Ok(height)) => {
                if width == 0 || height == 0 {
                    return Err(UsageError::EmptyScreen);
                }
                state.size = (width, height);
                Ok(state)
            },
            _ => Err(UsageError::MalformedNumber),
        }
    }
}

} // verus!
