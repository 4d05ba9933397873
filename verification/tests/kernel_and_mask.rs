use amdahls_lie::{handle_request, num_to_bitmask, Config};

#[test]
fn mask_policy_power_of_two_uses_whole_section() {
    assert_eq!(num_to_bitmask(1024), 1023);
    assert_eq!(num_to_bitmask(1), 0);
    assert_eq!(num_to_bitmask(2), 1);
    assert_eq!(num_to_bitmask(8), 7);
    assert_eq!(num_to_bitmask(65536), 65535);
}

#[test]
fn mask_policy_other_sizes_use_lower_half() {
    // 1000 is not a power of two: the next power of two is 1024, and the
    // mask covers only its lower half.
    assert_eq!(num_to_bitmask(1000), 511);
    assert_eq!(num_to_bitmask(3), 1);
    assert_eq!(num_to_bitmask(9), 7);
    assert_eq!(num_to_bitmask(1025), 1023);
}

#[test]
fn kernel_is_deterministic() {
    let mut section = Vec::with_capacity(256);
    for i in 0..256usize {
        section.push((i * 31 % 256) as u8);
    }
    let mask = num_to_bitmask(section.len());
    assert_eq!(mask, 255);

    let first = handle_request(&section, 77, mask, 1000);
    let second = handle_request(&section, 77, mask, 1000);
    assert_eq!(first, second);
}

#[test]
fn kernel_zero_iterations_is_zero() {
    let section = vec![0xFFu8; 128];
    let mask = num_to_bitmask(section.len());
    for start in [0usize, 1, 63, 127, 100_000] {
        assert_eq!(handle_request(&section, start, mask, 0), 0);
    }
}

#[test]
fn kernel_uniform_section_exact_sums() {
    // Every read returns 7, so `iters` rounds accumulate `28 * iters`
    // modulo 256.
    let section = vec![7u8; 2048];
    let mask = num_to_bitmask(section.len());
    assert_eq!(handle_request(&section, 42, mask, 1), 28);
    assert_eq!(handle_request(&section, 42, mask, 2), 56);
    assert_eq!(handle_request(&section, 42, mask, 10), (280 % 256) as u8);
}

#[test]
fn total_bytes_is_product() {
    let cfg = Config {
        num_bytes_per_section: 1000,
        num_sections: 3,
        num_iterations: 5,
    };
    assert_eq!(cfg.total_bytes(), 3000);
}
