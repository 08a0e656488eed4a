use sffs::render::{apply_gradient, format_size, gradient_bar, lerp_u8};

#[test]
fn test_format_size_binary() {
    assert_eq!(format_size(0, false), "0 B");
    assert_eq!(format_size(1023, false), "1023 B");
    assert_eq!(format_size(1024, false), "1 KB");
    assert_eq!(format_size(1024 * 1024, false), "1 MB");
    assert_eq!(format_size(1500, false), "1.46 KB");
}

#[test]
fn test_format_size_si() {
    assert_eq!(format_size(0, true), "0 B");
    assert_eq!(format_size(999, true), "999 B");
    assert_eq!(format_size(1000, true), "1 KB");
    assert_eq!(format_size(1000 * 1000, true), "1 MB");
    assert_eq!(format_size(1500, true), "1.50 KB");
}

#[test]
fn test_apply_gradient() {
    let s = "test";
    let grad = apply_gradient(s, (0, 0, 0), (255, 255, 255));
    assert!(grad.contains('t'));
    assert!(grad.contains('e'));
    assert!(grad.contains('s'));
    assert!(grad.len() > s.len());
}

#[test]
fn format_size_every_unit() {
    assert_eq!(format_size(1024u64.pow(3), false), "1 GB");
    assert_eq!(format_size(1024u64.pow(4), false), "1 TB");
    assert_eq!(format_size(1024u64.pow(5), false), "1 PB");
    assert_eq!(format_size(1024u64.pow(6), false), "1 EB");
    assert_eq!(format_size(1000u64.pow(6), true), "1 EB");
    assert_eq!(format_size(3 * 1000u64.pow(4), true), "3 TB");
}

#[test]
fn format_size_rounds_to_two_decimals() {
    // 1025 / 1024 = 1.0009..., not whole, so two decimals are shown.
    assert_eq!(format_size(1025, false), "1.00 KB");
    // 1152 / 1024 = 1.125 exactly: the tie goes to the even neighbour.
    assert_eq!(format_size(1152, false), "1.12 KB");
    // 1408 / 1024 = 1.375 exactly: the tie goes to the even neighbour.
    assert_eq!(format_size(1408, false), "1.38 KB");
    // 1023.999... KB rounds up to 1024.00 KB and stays in KB.
    assert_eq!(format_size(1024 * 1024 - 1, false), "1024.00 KB");
    assert_eq!(format_size(1_234_567, true), "1.23 MB");
    assert_eq!(format_size(999_999, true), "1000.00 KB");
}

#[test]
fn format_size_largest_values_stay_in_exabytes() {
    assert_eq!(format_size(u64::MAX, true), "18.45 EB");
    // u64::MAX is nearest to 2^64 in double precision: exactly 16 EB.
    assert_eq!(format_size(u64::MAX, false), "16 EB");
}

/// Sizes computed the straightforward way, with f64 arithmetic.
fn float_format_size(bytes: u64, use_si: bool) -> String {
    let divisor = if use_si { 1000.0 } else { 1024.0 };
    let units = ["B", "KB", "MB", "GB", "TB", "PB", "EB"];
    if bytes == 0 {
        return "0 B".to_string();
    }
    let mut size = bytes as f64;
    let mut unit_idx = 0;
    while size >= divisor && unit_idx < units.len() - 1 {
        size /= divisor;
        unit_idx += 1;
    }
    if unit_idx == 0 {
        format!("{} {}", size as u64, units[unit_idx])
    } else if size.fract() == 0.0 {
        format!("{:.0} {}", size, units[unit_idx])
    } else {
        format!("{:.2} {}", size, units[unit_idx])
    }
}

#[test]
fn format_size_matches_double_precision_arithmetic() {
    // Exact third-decimal ties in SI units fall on either side in binary64.
    assert_eq!(format_size(1015, true), "1.01 KB");
    assert_eq!(format_size(1025, true), "1.02 KB");
    assert_eq!(format_size(1035, true), "1.03 KB");
    let mut samples: Vec<u64> = vec![
        1, 9, 999, 1000, 1001, 1005, 1015, 1023, 1024, 1025, 1125, 1152, 1536, 10_240, 999_999,
        1_000_000, 1_048_575, 1_048_576, (1 << 53) - 1, 1 << 53, (1 << 53) + 1, (1 << 60) - 1,
        1 << 60, u64::MAX - 1, u64::MAX,
    ];
    let mut x: u64 = 0x9E37_79B9_7F4A_7C15;
    for _ in 0..4000 {
        x ^= x << 13;
        x ^= x >> 7;
        x ^= x << 17;
        samples.push(x >> (x % 64));
        samples.push((x % 100_000) * 5);
    }
    for &b in &samples {
        assert_eq!(format_size(b, false), float_format_size(b, false), "{b} binary");
        assert_eq!(format_size(b, true), float_format_size(b, true), "{b} SI");
    }
}

#[test]
fn apply_gradient_exact_escape_sequences() {
    assert_eq!(
        apply_gradient("ab", (0, 0, 0), (255, 255, 255)),
        "\x1b[38;2;0;0;0ma\x1b[39m\x1b[38;2;255;255;255mb\x1b[39m"
    );
    assert_eq!(
        apply_gradient("abc", (0, 10, 200), (100, 20, 0)),
        "\x1b[38;2;0;10;200ma\x1b[39m\x1b[38;2;50;15;100mb\x1b[39m\x1b[38;2;100;20;0mc\x1b[39m"
    );
}

#[test]
fn apply_gradient_short_text_uses_start_colour() {
    assert_eq!(apply_gradient("x", (1, 2, 3), (9, 9, 9)), "\x1b[38;2;1;2;3mx\x1b[39m");
    assert_eq!(apply_gradient("", (1, 2, 3), (9, 9, 9)), "\x1b[38;2;1;2;3m\x1b[39m");
}

#[test]
fn gradient_bar_half_filled() {
    let bar = gradient_bar(10, 5, (0, 0, 0), (255, 255, 255));
    assert!(bar.contains("▕"));
    assert!(bar.contains("▏"));
    assert!(bar.contains("█"));
    assert_eq!(bar.matches('█').count(), 5);
    assert!(bar.starts_with("▕\x1b[38;2;0;0;0m█\x1b[39m"));
    assert!(bar.ends_with("     ▏"));
}

#[test]
fn gradient_bar_empty_and_full() {
    assert_eq!(gradient_bar(3, 0, (0, 0, 0), (255, 255, 255)), "▕   ▏");
    assert_eq!(
        gradient_bar(2, 2, (0, 0, 0), (200, 100, 50)),
        "▕\x1b[38;2;0;0;0m█\x1b[39m\x1b[38;2;200;100;50m█\x1b[39m▏"
    );
    assert_eq!(gradient_bar(0, 0, (0, 0, 0), (0, 0, 0)), "▕▏");
}

#[test]
fn apply_gradient_follows_single_precision() {
    // 255 * (1 - 1/3) is 169.99998 in single precision, so the second
    // character gets 169, not 170.
    assert_eq!(
        apply_gradient("abcd", (255, 0, 0), (0, 255, 0)),
        "\x1b[38;2;255;0;0ma\x1b[39m\x1b[38;2;169;85;0mb\x1b[39m\
         \x1b[38;2;84;170;0mc\x1b[39m\x1b[38;2;0;255;0md\x1b[39m"
    );
}

/// One channel computed the straightforward way, with f32 arithmetic.
fn float_lerp(a: u8, b: u8, i: usize, last: usize) -> u8 {
    let t = i as f32 / last as f32;
    (a as f32 * (1.0 - t) + b as f32 * t) as u8
}

#[test]
fn lerp_matches_single_precision_arithmetic() {
    let mut x: u64 = 0x2545_F491_4F6C_DD1D;
    let mut next = || {
        x ^= x << 13;
        x ^= x >> 7;
        x ^= x << 17;
        x
    };
    for a in [0u8, 1, 7, 100, 128, 200, 254, 255] {
        for b in [0u8, 1, 13, 99, 127, 201, 255] {
            for last in 1usize..40 {
                for i in 0..=last {
                    assert_eq!(lerp_u8(a, b, i, last), float_lerp(a, b, i, last), "{a} {b} {i} {last}");
                }
            }
        }
    }
    for _ in 0..20000 {
        let r = next();
        let a = (r & 0xff) as u8;
        let b = ((r >> 8) & 0xff) as u8;
        let last = ((next() >> (next() % 64)) as usize).max(1);
        let i = match next() % 4 {
            0 => 0,
            1 => last,
            2 => last - 1,
            _ => (next() as usize) % last,
        };
        assert_eq!(lerp_u8(a, b, i, last), float_lerp(a, b, i, last), "{a} {b} {i} {last}");
    }
    assert_eq!(lerp_u8(255, 0, 1, 3), 169);
    assert_eq!(lerp_u8(0, 255, 1, 3), 85);
}

#[test]
fn gradient_ends_at_its_two_colours() {
    for last in [1usize, 2, 3, 7, 1000, (1 << 24) + 1, (1 << 40) + 3, usize::MAX] {
        for (a, b) in [(0u8, 255u8), (255, 0), (17, 200), (255, 255), (0, 0), (128, 1)] {
            assert_eq!(lerp_u8(a, b, 0, last), a);
            assert_eq!(lerp_u8(a, b, last, last), b);
        }
    }
    // A constant channel is not always kept: single precision gives 254 here.
    assert_eq!(lerp_u8(255, 255, 1, 3), 254);
    assert_eq!(float_lerp(255, 255, 1, 3), 254);
}
