//! The record through which the fragment shader reads the view.
//!
//! The shader's binding fixes the layout: screen width, screen height, real
//! and imaginary part of the center and the scale, each a floating-point
//! value of the chosen precision, then the iteration cap as a 32-bit
//! unsigned integer. With double precision four bytes of padding follow, so
//! that the size stays a multiple of eight. Everything is little-endian.
use crate::fragment::FragmentState;
use crate::ieee::{Binary32, Binary64};
use crate::rounding::Precision;
use vstd::prelude::*;

verus! {

/// The four bytes of a 32-bit word, least significant first.
pub open spec fn word_bytes(v: u32) -> Seq<u8> {
    seq![
        (v % 256) as u8,
        (v / 0x100 % 256) as u8,
        (v / 0x1_0000 % 256) as u8,
        (v / 0x100_0000) as u8,
    ]
}

/// The eight bytes of a 64-bit word, least significant first.
pub open spec fn long_bytes(v: u64) -> Seq<u8> {
    word_bytes((v % 0x1_0000_0000) as u32) + word_bytes((v / 0x1_0000_0000) as u32)
}

/// Appends the bytes of a 32-bit word.
pub fn push_word(out: &mut Vec<u8>, v: u32)
    ensures
        final(out)@ == old(out)@ + word_bytes(v),
{
    out.push((v % 256) as u8);
    out.push((v / 0x100 % 256) as u8);
    out.push((v / 0x1_0000 % 256) as u8);
    out.push((v / 0x100_0000) as u8);
    assert(out@ =~= old(out)@ + word_bytes(v));
}

/// Appends the bytes of a 64-bit word.
pub fn push_long(out: &mut Vec<u8>, v: u64)
    ensures
        final(out)@ == old(out)@ + long_bytes(v),
{
    push_word(out, (v % 0x1_0000_0000) as u32);
    push_word(out, (v / 0x1_0000_0000) as u32);
    assert(out@ =~= old(out)@ + long_bytes(v));
}

/// A number as the graphics device takes it.
#[derive(Clone, Copy, PartialEq, Eq, Structural, Debug)]
pub enum GpuFloat {
    Single(Binary32),
    Double(Binary64),
}

impl GpuFloat {
    pub open spec fn precision(self) -> Precision {
        match self {
            GpuFloat::Single(_) => Precision::Single,
            GpuFloat::Double(_) => Precision::Double,
        }
    }

    /// A count at the given precision, rounded to nearest where it has too
    /// many digits.
    pub open spec fn of_count(precision: Precision, n: u32) -> GpuFloat {
        match precision {
            Precision::Single => GpuFloat::Single(Binary32::of_count(n)),
            Precision::Double => GpuFloat::Double(Binary64::of_count(n)),
        }
    }

    /// A number of the plane at the given precision: itself at double
    /// precision, the nearest value at single precision.
    pub open spec fn of_real(precision: Precision, x: Binary64) -> GpuFloat {
        match precision {
            Precision::Single => GpuFloat::Single(x.narrowing()),
            Precision::Double => GpuFloat::Double(x),
        }
    }

    /// The encoding, least significant byte first.
    pub open spec fn bytes(self) -> Seq<u8> {
        match self {
            GpuFloat::Single(x) => word_bytes(x.bits),
            GpuFloat::Double(x) => long_bytes(x.bits),
        }
    }

    /// [`Self::of_count`], computed.
    pub fn from_count(precision: Precision, n: u32) -> (r: GpuFloat)
        ensures
            r == Self::of_count(precision, n),
    {
        match precision {
            Precision::Single => GpuFloat::Single(Binary32::from_count(n)),
            Precision::Double => GpuFloat::Double(Binary64::from_count(n)),
        }
    }

    /// [`Self::of_real`], computed.
    pub fn from_real(precision: Precision, x: Binary64) -> (r: GpuFloat)
        ensures
            r == Self::of_real(precision, x),
    {
        match precision {
            Precision::Single => GpuFloat::Single(x.narrowed()),
            Precision::Double => GpuFloat::Double(x),
        }
    }

    /// Appends [`Self::bytes`].
    pub fn push_to(self, out: &mut Vec<u8>)
        ensures
            final(out)@ == old(out)@ + self.bytes(),
    {
        match self {
            GpuFloat::Single(x) => push_word(out, x.bits),
            GpuFloat::Double(x) => push_long(out, x.bits),
        }
    }
}

/// The view as the fragment shader reads it: a snapshot, made anew whenever
/// it has to be uploaded.
#[derive(Clone, Copy, PartialEq, Eq, Debug)]
pub struct FragmentUniform {
    pub screen_size: (GpuFloat, GpuFloat),
    pub center: (GpuFloat, GpuFloat),
    pub scale: GpuFloat,
    pub max_iterations: u32,
}

impl FragmentUniform {
    /// The precision of the record: that of its scale.
    pub open spec fn precision(self) -> Precision {
        self.scale.precision()
    }

    /// All numbers of the record have one precision.
    pub open spec fn wf(self) -> bool {
        &&& self.screen_size.0.precision() == self.precision()
        &&& self.screen_size.1.precision() == self.precision()
        &&& self.center.0.precision() == self.precision()
        &&& self.center.1.precision() == self.precision()
    }

    /// The bytes that go to the device.
    pub open spec fn bytes(self) -> Seq<u8> {
        let fields = self.screen_size.0.bytes() + self.screen_size.1.bytes()
            + self.center.0.bytes() + self.center.1.bytes() + self.scale.bytes() + word_bytes(
            self.max_iterations,
        );
        match self.precision() {
            Precision::Single => fields,
            Precision::Double => fields + word_bytes(0),
        }
    }

    /// Number of bytes of a record of the given precision: 24 or 48.
    pub open spec fn size(precision: Precision) -> nat {
        match precision {
            Precision::Single => 24,
            Precision::Double => 48,
        }
    }

    /// [`Self::bytes`], computed.
    pub fn to_bytes(&self) -> (out: Vec<u8>)
        ensures
            out@ == self.bytes(),
            self.wf() ==> out@.len() == Self::size(self.precision()),
    {
        let mut out: Vec<u8> = Vec::new();
        self.screen_size.0.push_to(&mut out);
        self.screen_size.1.push_to(&mut out);
        self.center.0.push_to(&mut out);
        self.center.1.push_to(&mut out);
        self.scale.push_to(&mut out);
        push_word(&mut out, self.max_iterations);
        match self.scale {
            GpuFloat::Single(_) => {},
            GpuFloat::Double(_) => {
                push_word(&mut out, 0);
            },
        }
        assert(out@ =~= self.bytes());
        out
    }
}

impl FragmentState {
    /// The record of this view at the given precision.
    pub open spec fn uniform(self, precision: Precision) -> FragmentUniform {
        FragmentUniform {
            screen_size: (
                GpuFloat::of_count(precision, self.size.0),
                GpuFloat::of_count(precision, self.size.1),
            ),
            center: (
                GpuFloat::of_real(precision, self.center.0),
                GpuFloat::of_real(precision, self.center.1),
            ),
            scale: GpuFloat::of_real(precision, self.scale),
            max_iterations: self.max_iterations,
        }
    }

    /// The record of this view at the given precision. It depends on the view
    /// and the precision alone, and the view is left as it is.
    pub fn fragment_uniform(&self, precision: Precision) -> (r: FragmentUniform)
        ensures
            r == self.uniform(precision),
            r.wf(),
            r.precision() == precision,
    {
        FragmentUniform {
            screen_size: (
                GpuFloat::from_count(precision, self.size.0),
                GpuFloat::from_count(precision, self.size.1),
            ),
            center: (
                GpuFloat::from_real(precision, self.center.0),
                GpuFloat::from_real(precision, self.center.1),
            ),
            scale: GpuFloat::from_real(precision, self.scale),
            max_iterations: self.max_iterations,
        }
    }
}

/// The record holds the scale of the view as it is: unchanged at double
/// precision, and at single precision the nearest value of that precision.
/// Its bytes stand behind the four numbers that come first.
pub proof fn lemma_scale_is_embedded(state: FragmentState, precision: Precision)
    ensures
        precision == Precision::Double ==> {
            &&& state.uniform(precision).scale == GpuFloat::Double(state.scale)
            &&& state.uniform(precision).bytes().subrange(32, 40) == long_bytes(state.scale.bits)
        },
        precision == Precision::Single ==> {
            &&& state.uniform(precision).scale == GpuFloat::Single(state.scale.narrowing())
            &&& state.uniform(precision).bytes().subrange(16, 20) == word_bytes(
                state.scale.narrowing().bits,
            )
        },
{
    lemma_record_layout(state.uniform(precision));
}

/// The layout of the record: each number at its place, 24 bytes at single
/// precision and 48, the last four of them zero, at double precision.
pub proof fn lemma_record_layout(record: FragmentUniform)
    requires
        record.wf(),
    ensures
        ({
            let w = record.precision().width() as int;
            let bytes = record.bytes();
            &&& bytes.len() == FragmentUniform::size(record.precision())
            &&& bytes.subrange(0, w) == record.screen_size.0.bytes()
            &&& bytes.subrange(w, 2 * w) == record.screen_size.1.bytes()
            &&& bytes.subrange(2 * w, 3 * w) == record.center.0.bytes()
            &&& bytes.subrange(3 * w, 4 * w) == record.center.1.bytes()
            &&& bytes.subrange(4 * w, 5 * w) == record.scale.bytes()
            &&& bytes.subrange(5 * w, 5 * w + 4) == word_bytes(record.max_iterations)
            &&& record.precision() == Precision::Double ==> bytes.subrange(44, 48) == word_bytes(0)
        }),
{
    let w = record.precision().width() as int;
    let bytes = record.bytes();
    assert(bytes.subrange(0, w) =~= record.screen_size.0.bytes());
    assert(bytes.subrange(w, 2 * w) =~= record.screen_size.1.bytes());
    assert(bytes.subrange(2 * w, 3 * w) =~= record.center.0.bytes());
    assert(bytes.subrange(3 * w, 4 * w) =~= record.center.1.bytes());
    assert(bytes.subrange(4 * w, 5 * w) =~= record.scale.bytes());
    assert(bytes.subrange(5 * w, 5 * w + 4) =~= word_bytes(record.max_iterations));
    if record.precision() == Precision::Double {
        assert(bytes.subrange(44, 48) =~= word_bytes(0));
    }
}

} // verus!
