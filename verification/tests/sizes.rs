use dux::scan::human_size;

fn floating(size: u64) -> String {
    const UNITS: [&str; 6] = ["B", "KB", "MB", "GB", "TB", "PB"];
    let mut value = size as f64;
    let mut unit = 0;
    while value >= 1024.0 && unit < UNITS.len() - 1 {
        value /= 1024.0;
        unit += 1;
    }
    if unit == 0 {
        format!("{} {}", size, UNITS[unit])
    } else if value >= 10.0 {
        format!("{value:.0} {}", UNITS[unit])
    } else {
        format!("{value:.1} {}", UNITS[unit])
    }
}

#[test]
fn formats_human_sizes() {
    assert_eq!(human_size(512), "512 B");
    assert_eq!(human_size(1024), "1.0 KB");
    assert_eq!(human_size(10 * 1024 * 1024), "10 MB");
}

#[test]
fn sizes_have_exact_texts() {
    assert_eq!(human_size(0), "0 B");
    assert_eq!(human_size(1023), "1023 B");
    assert_eq!(human_size(1536), "1.5 KB");
    assert_eq!(human_size(1024 * 10 - 1), "10.0 KB");
    assert_eq!(human_size(1024 * 1024 - 1), "1024 KB");
    assert_eq!(human_size(10752), "10 KB");
    assert_eq!(human_size(11776), "12 KB");
    assert_eq!(human_size(u64::MAX), "16384 PB");
}

#[test]
fn sizes_agree_with_floating_point() {
    let mut samples: Vec<u64> = Vec::new();
    for shift in 0..64 {
        let base = 1u64 << shift;
        for offset in 0..4 {
            samples.push(base.saturating_add(offset));
            samples.push(base.saturating_sub(offset));
        }
        for tenth in 1..=100u64 {
            let part = base / 20;
            samples.push(base.saturating_add(part.saturating_mul(tenth)));
            samples.push(base.saturating_add(part.saturating_mul(tenth)).saturating_sub(1));
            samples.push(base.saturating_add(part.saturating_mul(tenth)).saturating_add(1));
        }
    }
    let mut state = 0x2545_f491_4f6c_dd1du64;
    for _ in 0..20_000 {
        state ^= state << 13;
        state ^= state >> 7;
        state ^= state << 17;
        samples.push(state >> (state % 60));
    }
    for half in 1..1200u64 {
        samples.push(half * 512);
        samples.push(half * 512 * 1024);
        samples.push(half * 512 * 1024 * 1024 * 1024 * 1024);
        samples.push((half * 512 * 1024 * 1024 * 1024 * 1024).wrapping_add(1));
        samples.push((half * 512 * 1024 * 1024 * 1024 * 1024).wrapping_sub(1));
    }
    samples.push(u64::MAX - 1);
    samples.push((1 << 53) + 1);
    samples.push((33 << 48) - 1);
    samples.push((33 << 48) + 1);
    for size in samples {
        assert_eq!(human_size(size), floating(size), "{size}");
    }
}
