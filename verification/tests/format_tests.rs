use raminfo::format::{fmt_kb, fmt_millivolts, fmt_size, temp_sample, usage_percent};

// ─── fmt_size ────────────────────────────────────────────────────────────────

#[test]
fn fmt_size_mb_below_1024() {
    assert_eq!(fmt_size(512), "512 MB");
    assert_eq!(fmt_size(1), "1 MB");
    assert_eq!(fmt_size(0), "0 MB");
    assert_eq!(fmt_size(1023), "1023 MB");
}

#[test]
fn fmt_size_gb_at_and_above_1024() {
    assert_eq!(fmt_size(1024), "1 GB");
    assert_eq!(fmt_size(2048), "2 GB");
    assert_eq!(fmt_size(16384), "16 GB");
    assert_eq!(fmt_size(32768), "32 GB");
}

// ─── fmt_kb ──────────────────────────────────────────────────────────────────

#[test]
fn fmt_kb_shows_mb_below_1gb() {
    assert_eq!(fmt_kb(1024), "1 MB"); // 1 MB
    assert_eq!(fmt_kb(512 * 1024), "512 MB"); // 512 MB
    assert_eq!(fmt_kb(1023 * 1024), "1023 MB");
}

#[test]
fn fmt_kb_shows_gb_at_and_above_1gb() {
    assert_eq!(fmt_kb(1024 * 1024), "1.0 GB");
    assert_eq!(fmt_kb(2 * 1024 * 1024), "2.0 GB");
    assert_eq!(fmt_kb(32 * 1024 * 1024), "32.0 GB");
}

#[test]
fn fmt_kb_fractional_gb() {
    // 1.5 GB = 1536 MB = 1572864 KB
    assert_eq!(fmt_kb(1572864), "1.5 GB");
}

// ─── Agreement with the floating-point formatting they describe ──────────────

/// A spread of values: small ones, rounding ties, and values near the limits
/// of exact `f64` integers and of `u64`.
fn samples() -> Vec<u64> {
    let mut v: Vec<u64> = (0..5000).collect();
    for &base in &[1u64 << 20, 1 << 30, 1 << 40, 1 << 52, 1 << 53, 1 << 54, 1 << 60, 1 << 63] {
        for d in 0..40u64 {
            v.push(base.wrapping_add(d));
            v.push(base.wrapping_sub(d));
            v.push(base.wrapping_add(d * 1537));
        }
    }
    for d in 0..2000u64 {
        v.push(u64::MAX - d);
        v.push(u64::MAX / 1000 - d);
        v.push(1536 + 512 * d);
        v.push(1150 + 100 * d);
        v.push(50 + 1000 * d);
        v.push(d * 1_048_575 + 524_288);
    }
    let mut x: u64 = 0x9E37_79B9_7F4A_7C15;
    for _ in 0..20000 {
        x ^= x << 13;
        x ^= x >> 7;
        x ^= x << 17;
        v.push(x);
        v.push(x >> 20);
        v.push(x >> 40);
    }
    v
}

#[test]
fn fmt_size_matches_float_formatting() {
    for mb in samples() {
        let expected = if mb >= 1024 {
            format!("{:.0} GB", mb as f64 / 1024.0)
        } else {
            format!("{} MB", mb)
        };
        assert_eq!(fmt_size(mb), expected, "mb = {mb}");
    }
}

#[test]
fn fmt_kb_matches_float_formatting() {
    for kb in samples() {
        let mb = kb / 1024;
        let gb = mb as f64 / 1024.0;
        let expected = if gb >= 1.0 { format!("{:.1} GB", gb) } else { format!("{} MB", mb) };
        assert_eq!(fmt_kb(kb), expected, "kb = {kb}");
    }
}

#[test]
fn millivolts_match_float_formatting() {
    for mv in samples() {
        let expected = format!("{:.1} V", mv as f64 / 1000.0);
        assert_eq!(fmt_millivolts(mv), expected, "mv = {mv}");
    }
}

#[test]
fn millivolt_examples() {
    assert_eq!(fmt_millivolts(1200), "1.2 V");
    assert_eq!(fmt_millivolts(1100), "1.1 V");
    assert_eq!(fmt_millivolts(1350), "1.4 V");
    assert_eq!(fmt_millivolts(1150), "1.1 V"); // 1.15 is stored just below 1.15
    assert_eq!(fmt_millivolts(250), "0.2 V"); // an exact tie rounds to even
    assert_eq!(fmt_millivolts(0), "0.0 V");
}

#[test]
fn usage_percent_matches_float_rounding() {
    let vals = samples();
    for (k, &total) in vals.iter().enumerate() {
        for &used in &[0, 1, total / 2, total / 3, total / 200, total - total / 7, total] {
            let expected = if total == 0 {
                0
            } else {
                ((used as f64 / total as f64).clamp(0.0, 1.0) * 100.0).round() as u64
            };
            assert_eq!(usage_percent(used, total), expected, "used = {used}, total = {total}");
        }
        let used = vals[(k * 7 + 3) % vals.len()];
        let expected = if total == 0 {
            0
        } else {
            ((used as f64 / total as f64).clamp(0.0, 1.0) * 100.0).round() as u64
        };
        assert_eq!(usage_percent(used, total), expected, "used = {used}, total = {total}");
    }
}

#[test]
fn usage_percent_examples() {
    assert_eq!(usage_percent(0, 0), 0);
    assert_eq!(usage_percent(5, 0), 0);
    assert_eq!(usage_percent(5, 10), 50);
    assert_eq!(usage_percent(20, 10), 100);
    assert_eq!(usage_percent(600, 1000), 60);
    assert_eq!(usage_percent(1, 200), 1); // 0.5 rounds away from zero
    assert_eq!(usage_percent(1, 201), 0);
}

#[test]
fn temp_sample_matches_float_rounding() {
    for v in samples() {
        let milli = v as i64;
        let expected = (milli as f64 / 1000.0).round().max(0.0) as u64;
        assert_eq!(temp_sample(milli), expected, "milli = {milli}");
        let neg = -(v as i64 & 0xffff_ffff);
        let expected = (neg as f64 / 1000.0).round().max(0.0) as u64;
        assert_eq!(temp_sample(neg), expected, "milli = {neg}");
    }
}

#[test]
fn temp_sample_examples() {
    assert_eq!(temp_sample(44400), 44);
    assert_eq!(temp_sample(44500), 45); // halves round away from zero
    assert_eq!(temp_sample(499), 0);
    assert_eq!(temp_sample(-3000), 0);
    assert_eq!(temp_sample(i64::MAX), (i64::MAX as f64 / 1000.0).round() as u64);
}
