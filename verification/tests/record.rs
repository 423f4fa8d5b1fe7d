//! The record for the fragment shader and its bytes.
use mandelbrot::fragment::{FragmentState, Key};
use mandelbrot::ieee::{Binary32, Binary64};
use mandelbrot::rounding::Precision;
use mandelbrot::uniform::{FragmentUniform, GpuFloat};

fn single(x: f32) -> GpuFloat {
    GpuFloat::Single(Binary32 { bits: x.to_bits() })
}

fn double(x: f64) -> GpuFloat {
    GpuFloat::Double(Binary64 { bits: x.to_bits() })
}

#[test]
fn record_of_the_default_view_in_single_precision() {
    let record = FragmentState::default().fragment_uniform(Precision::Single);
    assert_eq!(record.screen_size, (single(800.0), single(600.0)));
    assert_eq!(record.center, (single(-0.5), single(0.0)));
    assert_eq!(record.scale, single(2.0));
    assert_eq!(record.max_iterations, 200);
}

#[test]
fn record_of_the_default_view_in_double_precision() {
    let record = FragmentState::default().fragment_uniform(Precision::Double);
    assert_eq!(record.screen_size, (double(800.0), double(600.0)));
    assert_eq!(record.center, (double(-0.5), double(0.0)));
    assert_eq!(record.scale, double(2.0));
    assert_eq!(record.max_iterations, 200);
}

#[test]
fn bytes_of_the_default_view_in_single_precision() {
    let bytes = FragmentState::default().fragment_uniform(Precision::Single).to_bytes();
    let expected: [u8; 24] = [
        0x00, 0x00, 0x48, 0x44, // 800.0
        0x00, 0x00, 0x16, 0x44, // 600.0
        0x00, 0x00, 0x00, 0xbf, // -0.5
        0x00, 0x00, 0x00, 0x00, // 0.0
        0x00, 0x00, 0x00, 0x40, // 2.0
        0xc8, 0x00, 0x00, 0x00, // 200
    ];
    assert_eq!(bytes, expected);
}

#[test]
fn bytes_of_the_default_view_in_double_precision() {
    let bytes = FragmentState::default().fragment_uniform(Precision::Double).to_bytes();
    let expected: [u8; 48] = [
        0x00, 0x00, 0x00, 0x00, 0x00, 0x00, 0x89, 0x40, // 800.0
        0x00, 0x00, 0x00, 0x00, 0x00, 0xc0, 0x82, 0x40, // 600.0
        0x00, 0x00, 0x00, 0x00, 0x00, 0x00, 0xe0, 0xbf, // -0.5
        0x00, 0x00, 0x00, 0x00, 0x00, 0x00, 0x00, 0x00, // 0.0
        0x00, 0x00, 0x00, 0x00, 0x00, 0x00, 0x00, 0x40, // 2.0
        0xc8, 0x00, 0x00, 0x00, // 200
        0x00, 0x00, 0x00, 0x00, // padding
    ];
    assert_eq!(bytes, expected);
}

fn some_view() -> FragmentState {
    let mut state = FragmentState::default();
    state.size = (1920, 1081);
    state.max_iterations = 0x0102_0304;
    state.scale = Binary64 { bits: 1.234_567_890_123e-7f64.to_bits() };
    state.center =
        (Binary64 { bits: (-0.743_643_887_037_151f64).to_bits() }, Binary64 {
            bits: 0.131_825_904_205_33f64.to_bits(),
        });
    state
}

#[test]
fn layout_in_single_precision() {
    let state = some_view();
    let bytes = state.fragment_uniform(Precision::Single).to_bytes();
    let mut expected = Vec::new();
    expected.extend_from_slice(&1920.0f32.to_le_bytes());
    expected.extend_from_slice(&1081.0f32.to_le_bytes());
    expected.extend_from_slice(&(-0.743_643_887_037_151f64 as f32).to_le_bytes());
    expected.extend_from_slice(&(0.131_825_904_205_33f64 as f32).to_le_bytes());
    expected.extend_from_slice(&(1.234_567_890_123e-7f64 as f32).to_le_bytes());
    expected.extend_from_slice(&0x0102_0304u32.to_le_bytes());
    assert_eq!(bytes, expected);
    assert_eq!(bytes.len(), 24);
    assert_eq!(&bytes[20..], &[0x04, 0x03, 0x02, 0x01]);
}

#[test]
fn layout_in_double_precision() {
    let state = some_view();
    let bytes = state.fragment_uniform(Precision::Double).to_bytes();
    let mut expected = Vec::new();
    expected.extend_from_slice(&1920.0f64.to_le_bytes());
    expected.extend_from_slice(&1081.0f64.to_le_bytes());
    expected.extend_from_slice(&(-0.743_643_887_037_151f64).to_le_bytes());
    expected.extend_from_slice(&0.131_825_904_205_33f64.to_le_bytes());
    expected.extend_from_slice(&1.234_567_890_123e-7f64.to_le_bytes());
    expected.extend_from_slice(&0x0102_0304u32.to_le_bytes());
    expected.extend_from_slice(&[0, 0, 0, 0]);
    assert_eq!(bytes, expected);
    assert_eq!(bytes.len(), 48);
    assert_eq!(bytes.len() % 8, 0);
}

#[test]
fn scale_is_embedded_unchanged() {
    let mut state = FragmentState::default();
    for _ in 0..300 {
        state.handle_key_pressed(Key::ArrowUp);
        let record = state.fragment_uniform(Precision::Double);
        assert_eq!(record.scale, GpuFloat::Double(state.scale));
        let bytes = record.to_bytes();
        assert_eq!(&bytes[32..40], &state.scale.bits.to_le_bytes());
        let narrow = state.fragment_uniform(Precision::Single);
        assert_eq!(narrow.scale, single(f64::from_bits(state.scale.bits) as f32));
        assert_eq!(
            &narrow.to_bytes()[16..20],
            &(f64::from_bits(state.scale.bits) as f32).to_le_bytes()
        );
    }
}

#[test]
fn record_is_the_same_each_time() {
    let state = some_view();
    for precision in [Precision::Single, Precision::Double] {
        let first = state.fragment_uniform(precision);
        let second = state.fragment_uniform(precision);
        assert_eq!(first, second);
        assert_eq!(first.to_bytes(), second.to_bytes());
        assert_eq!(first.to_bytes(), first.to_bytes());
    }
    assert_eq!(state, some_view());
}

#[test]
fn large_screens_round_in_single_precision() {
    let mut state = FragmentState::default();
    state.size = (16_777_217, u32::MAX);
    let record = state.fragment_uniform(Precision::Single);
    assert_eq!(record.screen_size, (single(16_777_216.0), single(4_294_967_296.0)));
    let record = state.fragment_uniform(Precision::Double);
    assert_eq!(record.screen_size, (double(16_777_217.0), double(4_294_967_295.0)));
}

#[test]
fn a_record_made_by_hand_has_the_bytes_of_its_fields() {
    let record = FragmentUniform {
        screen_size: (single(1.0), single(2.0)),
        center: (single(3.0), single(4.0)),
        scale: single(5.0),
        max_iterations: 6,
    };
    let mut expected = Vec::new();
    for x in [1.0f32, 2.0, 3.0, 4.0, 5.0] {
        expected.extend_from_slice(&x.to_le_bytes());
    }
    expected.extend_from_slice(&6u32.to_le_bytes());
    assert_eq!(record.to_bytes(), expected);
}
