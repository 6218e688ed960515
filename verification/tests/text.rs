use cvv::text::{format_size, hex16, push_decimal, scaled_text, GB, KB, MB};

fn by_floats(n: u64) -> String {
    if n >= 1_073_741_824 {
        format!("{:.1} GB", n as f64 / 1_073_741_824.0)
    } else if n >= 1_048_576 {
        format!("{:.1} MB", n as f64 / 1_048_576.0)
    } else if n >= 1024 {
        format!("{:.1} KB", n as f64 / 1024.0)
    } else {
        format!("{n} B")
    }
}

#[test]
fn sizes_use_the_largest_unit_reached() {
    assert_eq!(format_size(0), "0 B");
    assert_eq!(format_size(1023), "1023 B");
    assert_eq!(format_size(1024), "1.0 KB");
    assert_eq!(format_size(1536), "1.5 KB");
    assert_eq!(format_size(1_048_575), "1024.0 KB");
    assert_eq!(format_size(1_048_576), "1.0 MB");
    assert_eq!(format_size(1_073_741_823), "1024.0 MB");
    assert_eq!(format_size(1_073_741_824), "1.0 GB");
}

#[test]
fn size_ties_go_to_the_even_digit() {
    assert_eq!(format_size(1280), "1.2 KB");
    assert_eq!(format_size(1792), "1.8 KB");
    assert_eq!(format_size(GB + GB / 4), "1.2 GB");
    assert_eq!(format_size(GB + 3 * (GB / 4)), "1.8 GB");
    assert_eq!(format_size(MB + MB / 4), "1.2 MB");
}

#[test]
fn sizes_agree_with_floating_point() {
    let mut n: u64 = 1;
    let mut seed: u64 = 0x9E37_79B9_7F4A_7C15;
    while n < u64::MAX / 3 {
        for d in [0u64, 1, 2, 3, 51, 52] {
            assert_eq!(format_size(n - 1 + d), by_floats(n - 1 + d));
        }
        for _ in 0..50 {
            seed = seed.wrapping_mul(6_364_136_223_846_793_005).wrapping_add(1_442_695_040_888_963_407);
            let m = n + seed % n;
            assert_eq!(format_size(m), by_floats(m));
        }
        n = n * 2 + n / 3;
    }
    for m in [u64::MAX, u64::MAX - 1, u64::MAX - 1024, 1 << 53, (1 << 53) + 1, (1 << 54) + 2] {
        assert_eq!(format_size(m), by_floats(m));
    }
}

#[test]
fn sizes_in_a_given_unit() {
    assert_eq!(scaled_text(0, GB, " GB total"), "0.0 GB total");
    assert_eq!(scaled_text(GB * 3 / 2, GB, " GB total"), "1.5 GB total");
    assert_eq!(scaled_text(512, KB, "x"), "0.5x");
}

#[test]
fn digests_are_sixteen_upper_case_digits() {
    assert_eq!(hex16(0), "0000000000000000");
    assert_eq!(hex16(0xDEAD_BEEF), "00000000DEADBEEF");
    assert_eq!(hex16(u64::MAX), "FFFFFFFFFFFFFFFF");
    assert_eq!(hex16(0x0123_4567_89AB_CDEF), format!("{:016X}", 0x0123_4567_89AB_CDEFu64));
}

#[test]
fn different_digests_have_different_texts() {
    assert_ne!(hex16(0x10), hex16(0x01));
    assert_ne!(hex16(1 << 63), hex16(0));
    assert_eq!(hex16(77).len(), 16);
}

#[test]
fn decimals_are_appended() {
    let mut out = String::from("n=");
    push_decimal(&mut out, 0);
    push_decimal(&mut out, 1090);
    push_decimal(&mut out, u64::MAX);
    assert_eq!(out, "n=0109018446744073709551615");
}
