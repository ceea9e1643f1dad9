use transg::format::format_time_checked;
use transg::{format_download_speed, format_eta, format_size, format_time};

const BYTES_TB: i64 = 1024 * 1024 * 1024 * 1024;
const BYTES_GB: i64 = 1024 * 1024 * 1024;
const BYTES_MB: i64 = 1024 * 1024;

fn size_with_floats(i: i64) -> String {
    if i == 0 {
        "".to_string()
    } else if i > BYTES_TB {
        format!("{:.2} Tib", i as f64 / (BYTES_TB as f64))
    } else if i > BYTES_GB {
        format!("{:.2} Gib", i as f64 / (BYTES_GB as f64))
    } else if i > BYTES_MB {
        format!("{:.2} Mib", i as f64 / (BYTES_MB as f64))
    } else {
        format!("{:.2} Kib", i as f64 / 1024.0)
    }
}

fn speed_with_floats(i: i64) -> String {
    if i == 0 {
        "".to_string()
    } else if i > BYTES_MB {
        format!("{:.2} Mib/s", i as f64 / (BYTES_MB as f64))
    } else {
        format!("{:.2} Kib/s", i as f64 / 1024.0)
    }
}

fn sample_values() -> Vec<i64> {
    let mut v: Vec<i64> = vec![0, 1, -1, 5, 512, 1023, 1024, 1025, 128, 384, 640, 896, 10, 15];
    let mut x: u64 = 0x9e3779b97f4a7c15;
    for _ in 0..20000 {
        x = x.wrapping_mul(6364136223846793005).wrapping_add(1442695040888963407);
        v.push(x as i64);
        v.push((x >> 20) as i64);
        v.push((x >> 40) as i64);
        v.push(-((x >> 30) as i64));
    }
    for k in 0..63 {
        let p: i64 = 1i64 << k;
        for d in [-3i64, -1, 0, 1, 3] {
            v.push(p.wrapping_add(d));
            v.push((-p).wrapping_add(d));
        }
    }
    for unit in [1024i64, BYTES_MB, BYTES_GB, BYTES_TB] {
        for m in 1..400i64 {
            // values whose hundredths end exactly on a half
            v.push(m * unit + unit / 8);
            v.push(m * unit + 3 * unit / 8);
            v.push(m * unit + 5 * unit / 8);
            v.push(-(m * unit + 5 * unit / 8));
        }
    }
    v.push(i64::MAX);
    v.push(i64::MIN);
    v.push(i64::MAX - 512);
    v.push((1i64 << 53) + 1);
    v.push((1i64 << 54) + 2);
    v.push((1i64 << 54) + 6);
    v
}

#[test]
fn format_size_agrees_with_float_formatting() {
    for i in sample_values() {
        assert_eq!(format_size(i), size_with_floats(i), "value {}", i);
    }
}

#[test]
fn format_download_speed_agrees_with_float_formatting() {
    for i in sample_values() {
        assert_eq!(format_download_speed(i), speed_with_floats(i), "value {}", i);
    }
}

#[test]
fn format_size_examples() {
    assert_eq!(format_size(0), "");
    assert_eq!(format_size(1024), "1.00 Kib");
    assert_eq!(format_size(1536), "1.50 Kib");
    assert_eq!(format_size(BYTES_MB), "1024.00 Kib");
    assert_eq!(format_size(BYTES_MB + BYTES_MB / 2), "1.50 Mib");
    assert_eq!(format_size(3 * BYTES_GB), "3.00 Gib");
    assert_eq!(format_size(5 * BYTES_TB / 2), "2.50 Tib");
    assert_eq!(format_size(-1), "-0.00 Kib");
    // 1.125 rounds to even: 1.12
    assert_eq!(format_size(1024 + 128), "1.12 Kib");
    // 1.375 rounds to even: 1.38
    assert_eq!(format_size(1024 + 384), "1.38 Kib");
}

#[test]
fn format_download_speed_examples() {
    assert_eq!(format_download_speed(0), "");
    assert_eq!(format_download_speed(2048), "2.00 Kib/s");
    assert_eq!(format_download_speed(3 * BYTES_MB), "3.00 Mib/s");
    assert_eq!(format_download_speed(BYTES_MB), "1024.00 Kib/s");
}

fn eta_reference(secs: i64) -> String {
    if secs == -1 {
        "".to_string()
    } else if secs == -2 {
        "∞".to_string()
    } else {
        let days = secs / 86400;
        let secs = secs - days * 86400;
        let hours = secs / 3600;
        let secs = secs - hours * 3600;
        let minutes = secs / 60;
        let secs = secs - minutes * 60;
        if days > 0 {
            format!("{}d {}h", days, hours)
        } else if hours > 0 {
            format!("{}h {}m", hours, minutes)
        } else if minutes > 0 {
            format!("{}m {}s", minutes, secs)
        } else {
            format!("{}s", secs)
        }
    }
}

#[test]
fn format_eta_examples() {
    assert_eq!(format_eta(-1), "");
    assert_eq!(format_eta(-2), "∞");
    assert_eq!(format_eta(0), "0s");
    assert_eq!(format_eta(59), "59s");
    assert_eq!(format_eta(60), "1m 0s");
    assert_eq!(format_eta(3661), "1h 1m");
    assert_eq!(format_eta(90061), "1d 1h");
    assert_eq!(format_eta(-100000), "-40s");
}

#[test]
fn format_eta_agrees_with_reference() {
    for i in sample_values() {
        assert_eq!(format_eta(i), eta_reference(i), "value {}", i);
    }
}

#[test]
fn format_time_examples() {
    assert_eq!(format_time(0), "1970-01-01 00:00:00");
    assert_eq!(format_time(1_000_000_000), "2001-09-09 01:46:40");
    assert_eq!(format_time(1_640_995_199), "2021-12-31 23:59:59");
    assert_eq!(format_time(86_400 * 366), "1971-01-02 00:00:00");
}

#[test]
fn format_time_checked_range() {
    assert_eq!(format_time_checked(0), Some("1970-01-01 00:00:00".to_string()));
    assert_eq!(format_time_checked(u64::MAX), None);
    assert_eq!(format_time_checked(i64::MAX as u64), None);
    assert_eq!(format_time_checked(253_402_300_799), Some("9999-12-31 23:59:59".to_string()));
}
