//! The view, the keys and the command line.
use mandelbrot::fragment::{
    parse_or_usage, Argument, FragmentState, Key, UsageError, ITERATION_STEP, TRANSFORM_STEP,
    USAGE, ZOOM_FACTOR,
};
use mandelbrot::ieee::Binary64;

fn number(x: f64) -> Binary64 {
    Binary64 { bits: x.to_bits() }
}

fn float(x: Binary64) -> f64 {
    f64::from_bits(x.bits)
}

fn argument(text: &str) -> Argument {
    Argument { text: text.to_string(), number: text.parse::<f64>().ok().map(number) }
}

fn arguments(texts: &[&str]) -> Vec<Argument> {
    texts.iter().map(|t| argument(t)).collect()
}

const ALL_KEYS: [Key; 11] = [
    Key::KeyA,
    Key::KeyD,
    Key::KeyW,
    Key::KeyS,
    Key::ArrowUp,
    Key::ArrowDown,
    Key::ArrowLeft,
    Key::ArrowRight,
    Key::KeyI,
    Key::Escape,
    Key::Other,
];

#[test]
fn constants_encode_their_numbers() {
    assert_eq!(ZOOM_FACTOR, 1.05f64.to_bits());
    assert_eq!(TRANSFORM_STEP, 0.01f64.to_bits());
    assert_eq!(ITERATION_STEP, 200);
}

#[test]
fn default_view() {
    let state = FragmentState::default();
    assert_eq!(state.size, (800, 600));
    assert_eq!(state.max_iterations, 200);
    assert_eq!(float(state.scale), 2.0);
    assert_eq!(float(state.center.0), -0.5);
    assert_eq!(state.center.1.bits, 0.0f64.to_bits());
}

#[test]
fn up_divides_the_scale_by_the_zoom_factor() {
    let mut state = FragmentState::default();
    assert!(state.handle_key_pressed(Key::ArrowUp));
    assert_eq!(state.scale.bits, (2.0f64 / 1.05).to_bits());
    assert!((float(state.scale) - 1.9048).abs() < 1e-4);
    assert_eq!(state.center, FragmentState::default().center);
    assert_eq!(state.max_iterations, 200);
    assert_eq!(state.size, (800, 600));
}

#[test]
fn down_multiplies_the_scale_by_the_zoom_factor() {
    let mut state = FragmentState::default();
    assert!(state.handle_key_pressed(Key::ArrowDown));
    assert_eq!(state.scale.bits, (2.0f64 * 1.05).to_bits());
}

#[test]
fn zoom_is_geometric() {
    let mut state = FragmentState::default();
    let mut scale = 2.0f64;
    for _ in 0..500 {
        state.handle_key_pressed(Key::ArrowUp);
        scale /= 1.05;
        assert_eq!(state.scale.bits, scale.to_bits());
    }
    for _ in 0..1000 {
        state.handle_key_pressed(Key::ArrowDown);
        scale *= 1.05;
        assert_eq!(state.scale.bits, scale.to_bits());
    }
}

#[test]
fn pan_keys_move_the_center_by_a_hundredth_of_the_scale() {
    let step = 0.01f64 * 2.0;
    let mut state = FragmentState::default();
    assert!(state.handle_key_pressed(Key::KeyA));
    assert_eq!(state.center.0.bits, (-0.5f64 - step).to_bits());
    assert_eq!(state.center.1.bits, 0.0f64.to_bits());

    let mut state = FragmentState::default();
    assert!(state.handle_key_pressed(Key::KeyD));
    assert_eq!(state.center.0.bits, (-0.5f64 + step).to_bits());

    let mut state = FragmentState::default();
    assert!(state.handle_key_pressed(Key::KeyW));
    assert_eq!(state.center.0.bits, (-0.5f64).to_bits());
    assert_eq!(state.center.1.bits, (0.0f64 + step).to_bits());

    let mut state = FragmentState::default();
    assert!(state.handle_key_pressed(Key::KeyS));
    assert_eq!(state.center.1.bits, (0.0f64 - step).to_bits());
    assert_eq!(state.scale, FragmentState::default().scale);
}

#[test]
fn a_walk_over_the_plane_is_the_machines() {
    let mut state = FragmentState::default();
    let (mut re, mut im, mut scale) = (-0.5f64, 0.0f64, 2.0f64);
    let mut seed = 0x2545_f491_4f6c_dd1du64;
    for _ in 0..5000 {
        seed ^= seed << 13;
        seed ^= seed >> 7;
        seed ^= seed << 17;
        let key = ALL_KEYS[(seed % 6) as usize];
        let step = 0.01 * scale;
        match key {
            Key::KeyA => re -= step,
            Key::KeyD => re += step,
            Key::KeyW => im += step,
            Key::KeyS => im -= step,
            Key::ArrowUp => scale /= 1.05,
            _ => scale *= 1.05,
        }
        assert!(state.handle_key_pressed(key));
        assert_eq!(state.center.0.bits, re.to_bits());
        assert_eq!(state.center.1.bits, im.to_bits());
        assert_eq!(state.scale.bits, scale.to_bits());
    }
}

#[test]
fn pan_step_doubles_with_the_scale() {
    for scale in [2.0f64, 1.9048, 3.0e-9, 7.25e12, 1.0e-300, 1.0e300] {
        let mut near = FragmentState::default();
        near.scale = number(scale);
        let mut far = near;
        far.scale = number(2.0 * scale);
        near.handle_key_pressed(Key::KeyD);
        far.handle_key_pressed(Key::KeyD);
        let step = float(near.center.0) - -0.5;
        let twice = float(far.center.0) - -0.5;
        assert!((twice - 2.0 * step).abs() <= 1e-15 * twice.abs().max(1.0));
        // The steps themselves, without the rounding of the sum:
        let one = number(0.01).times(number(scale));
        let two = number(0.01).times(number(2.0 * scale));
        assert_eq!(two, one.times(number(2.0)));
    }
}

#[test]
fn zoom_in_then_out_returns_within_a_unit_in_the_last_place() {
    let mut seed = 0x9e37_79b9_7f4a_7c15u64;
    for round in 0..100_000u64 {
        seed ^= seed << 13;
        seed ^= seed >> 7;
        seed ^= seed << 17;
        let bits = match round % 4 {
            0 => 1 + seed % 0x7fef_ffff_ffff_ffff,
            1 => 1 + seed % 0x0010_0000_0000_0000,
            2 => 1 + round,
            _ => 2.0f64.to_bits() + seed % 1000,
        };
        let mut state = FragmentState::default();
        state.scale = Binary64 { bits };
        state.handle_key_pressed(Key::ArrowUp);
        state.handle_key_pressed(Key::ArrowDown);
        let back = state.scale.bits;
        assert!(back.abs_diff(bits) <= 1, "{:#x} came back as {:#x}", bits, back);
    }
    let mut state = FragmentState::default();
    state.handle_key_pressed(Key::ArrowUp);
    state.handle_key_pressed(Key::ArrowDown);
    assert!((float(state.scale) - 2.0).abs() <= 4.0 * f64::EPSILON);
}

#[test]
fn zoom_keeps_the_scale_positive() {
    let mut state = FragmentState::default();
    for start in [1u64, 2, 3, 20, 21, 1000] {
        state.scale = Binary64 { bits: start };
        let mut scale = f64::from_bits(start);
        for _ in 0..200 {
            state.handle_key_pressed(Key::ArrowUp);
            scale /= 1.05;
            assert!(float(state.scale) > 0.0);
            assert_eq!(state.scale.bits, scale.to_bits());
        }
    }
    // The smallest positive value divided by 1.05 rounds back to itself.
    state.scale = Binary64 { bits: 1 };
    state.handle_key_pressed(Key::ArrowUp);
    assert_eq!(state.scale.bits, 1);
    state.scale = number(f64::MAX);
    state.handle_key_pressed(Key::ArrowDown);
    assert_eq!(float(state.scale), f64::INFINITY);
    state.handle_key_pressed(Key::ArrowUp);
    assert_eq!(float(state.scale), f64::INFINITY);
}

#[test]
fn right_adds_two_hundred_iterations() {
    let mut state = FragmentState::default();
    assert!(state.handle_key_pressed(Key::ArrowRight));
    assert_eq!(state.max_iterations, 400);
    assert!(state.handle_key_pressed(Key::ArrowRight));
    assert_eq!(state.max_iterations, 600);
    assert_eq!(state.scale, FragmentState::default().scale);
    assert_eq!(state.center, FragmentState::default().center);
}

#[test]
fn iterations_stop_at_the_largest_count() {
    let mut state = FragmentState::default();
    state.max_iterations = u32::MAX - 200;
    assert!(state.handle_key_pressed(Key::ArrowRight));
    assert_eq!(state.max_iterations, u32::MAX);
    state.max_iterations = u32::MAX - 199;
    assert!(state.handle_key_pressed(Key::ArrowRight));
    assert_eq!(state.max_iterations, u32::MAX);
    assert!(state.handle_key_pressed(Key::ArrowRight));
    assert_eq!(state.max_iterations, u32::MAX);
}

#[test]
fn left_takes_two_hundred_iterations_and_stops_at_zero() {
    let mut state = FragmentState::default();
    state.max_iterations = 450;
    assert!(state.handle_key_pressed(Key::ArrowLeft));
    assert_eq!(state.max_iterations, 250);
    assert!(state.handle_key_pressed(Key::ArrowLeft));
    assert_eq!(state.max_iterations, 50);
    assert!(state.handle_key_pressed(Key::ArrowLeft));
    assert_eq!(state.max_iterations, 0);
    assert!(state.handle_key_pressed(Key::ArrowLeft));
    assert_eq!(state.max_iterations, 0);

    let mut state = FragmentState::default();
    assert!(state.handle_key_pressed(Key::ArrowLeft));
    assert_eq!(state.max_iterations, 0);
    state.max_iterations = 199;
    state.handle_key_pressed(Key::ArrowLeft);
    assert_eq!(state.max_iterations, 0);
}

#[test]
fn other_keys_change_nothing() {
    for key in [Key::KeyI, Key::Escape, Key::Other] {
        let mut state = FragmentState::default();
        state.center = (number(0.3), number(-0.2));
        let before = state;
        assert!(!state.handle_key_pressed(key));
        assert_eq!(state, before);
    }
}

#[test]
fn a_key_changes_at_most_one_parameter() {
    for key in ALL_KEYS {
        let before = FragmentState::default();
        let mut state = before;
        state.handle_key_pressed(key);
        let changed = [
            state.center != before.center,
            state.scale != before.scale,
            state.max_iterations != before.max_iterations,
        ];
        assert!(changed.iter().filter(|c| **c).count() <= 1);
        assert_eq!(state.size, before.size);
    }
}

#[test]
fn counts_are_read_as_decimal_digits() {
    assert_eq!(parse_or_usage("500"), Ok(500));
    assert_eq!(parse_or_usage("0"), Ok(0));
    assert_eq!(parse_or_usage("+5"), Ok(5));
    assert_eq!(parse_or_usage("00012"), Ok(12));
    assert_eq!(parse_or_usage("4294967295"), Ok(u32::MAX));
    assert_eq!(parse_or_usage("000000000000000000000000000042"), Ok(42));
}

#[test]
fn what_is_no_count_is_refused() {
    for text in [
        "",
        "+",
        "-",
        "-5",
        "++5",
        "5+",
        "12a",
        "a12",
        " 12",
        "12 ",
        "1_000",
        "1.0",
        "1e3",
        "0x10",
        "4294967296",
        "99999999999999999999999999",
        "\u{ff11}\u{ff12}",
        "\u{0663}",
    ] {
        assert_eq!(parse_or_usage(text), Err(UsageError::MalformedNumber), "{:?}", text);
        assert!(text.parse::<u32>().is_err());
    }
}

#[test]
fn counts_are_read_as_the_standard_library_reads_them() {
    let mut seed = 0x1357_9bdf_2468_ace0u64;
    let alphabet = ['0', '1', '2', '3', '4', '5', '6', '7', '8', '9', '+', '-', 'x', ' '];
    for _ in 0..20_000 {
        seed ^= seed << 13;
        seed ^= seed >> 7;
        seed ^= seed << 17;
        let mut text = String::new();
        let mut rest = seed;
        for _ in 0..(rest % 12) {
            rest /= 12;
            let pick = if rest % 5 == 0 { rest % 14 } else { rest % 10 };
            text.push(alphabet[pick as usize]);
            rest /= 14;
        }
        assert_eq!(parse_or_usage(&text).ok(), text.parse::<u32>().ok(), "{:?}", text);
    }
}

#[test]
fn no_argument_gives_the_default_view() {
    assert_eq!(FragmentState::from_args(&arguments(&[])), Ok(FragmentState::default()));
}

#[test]
fn one_argument_sets_the_iterations() {
    let state = FragmentState::from_args(&arguments(&["350"])).unwrap();
    assert_eq!(state.max_iterations, 350);
    assert_eq!(state.size, (800, 600));
    assert_eq!(state.scale, FragmentState::default().scale);
    assert_eq!(state.center, FragmentState::default().center);
}

#[test]
fn three_arguments_set_iterations_and_center() {
    let state = FragmentState::from_args(&arguments(&["350", "0.25", "-1e-3"])).unwrap();
    assert_eq!(state.max_iterations, 350);
    assert_eq!(float(state.center.0), 0.25);
    assert_eq!(float(state.center.1), -1e-3);
    assert_eq!(state.size, (800, 600));
    assert_eq!(float(state.scale), 2.0);
}

#[test]
fn five_arguments_set_iterations_center_and_size() {
    let state =
        FragmentState::from_args(&arguments(&["500", "-0.7", "0.1", "1024", "768"])).unwrap();
    assert_eq!(state.max_iterations, 500);
    assert_eq!(float(state.center.0), -0.7);
    assert_eq!(float(state.center.1), 0.1);
    assert_eq!(state.size, (1024, 768));
    assert_eq!(float(state.scale), 2.0);
}

#[test]
fn any_other_number_of_arguments_is_refused() {
    for count in [2usize, 4, 6, 7, 20] {
        let texts: Vec<&str> = (0..count).map(|_| "1").collect();
        assert_eq!(
            FragmentState::from_args(&arguments(&texts)),
            Err(UsageError::ArgumentCount)
        );
    }
}

#[test]
fn malformed_arguments_are_refused() {
    let malformed = Err(UsageError::MalformedNumber);
    assert_eq!(FragmentState::from_args(&arguments(&["many"])), malformed);
    assert_eq!(FragmentState::from_args(&arguments(&["-1"])), malformed);
    assert_eq!(FragmentState::from_args(&arguments(&["1.5"])), malformed);
    assert_eq!(FragmentState::from_args(&arguments(&["500", "left", "0.1"])), malformed);
    assert_eq!(FragmentState::from_args(&arguments(&["500", "0.1", ""])), malformed);
    assert_eq!(
        FragmentState::from_args(&arguments(&["500", "-0.7", "0.1", "1024.0", "768"])),
        malformed
    );
    assert_eq!(
        FragmentState::from_args(&arguments(&["500", "-0.7", "0.1", "1024", "-768"])),
        malformed
    );
    assert_eq!(
        FragmentState::from_args(&arguments(&["x", "-0.7", "0.1", "1024", "768"])),
        malformed
    );
}

#[test]
fn a_screen_without_pixels_is_refused() {
    let empty = Err(UsageError::EmptyScreen);
    assert_eq!(
        FragmentState::from_args(&arguments(&["500", "-0.7", "0.1", "0", "768"])),
        empty
    );
    assert_eq!(
        FragmentState::from_args(&arguments(&["500", "-0.7", "0.1", "1024", "0"])),
        empty
    );
}

#[test]
fn usage_names_the_three_forms() {
    assert!(USAGE.starts_with("Usage:"));
    assert_eq!(USAGE.matches("mandelbrot [").count(), 3);
    assert!(USAGE.contains("<iterations> <center real> <center imag> <width> <height>"));
}
