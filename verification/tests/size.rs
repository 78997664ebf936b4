use iex_download::size::{GB, KB, MB};
use iex_download::to_human;

fn with_floats(bytes: u64) -> String {
    if bytes >= GB {
        format!("{:.2} GB", bytes as f64 / GB as f64)
    } else if bytes >= MB {
        format!("{:.2} MB", bytes as f64 / MB as f64)
    } else if bytes >= KB {
        format!("{:.2} KB", bytes as f64 / KB as f64)
    } else {
        format!("{} B", bytes)
    }
}

#[test]
fn whole_bytes_below_a_kilobyte() {
    assert_eq!(to_human(0), "0 B");
    assert_eq!(to_human(7), "7 B");
    assert_eq!(to_human(512), "512 B");
    assert_eq!(to_human(1023), "1023 B");
}

#[test]
fn units_begin_at_their_size() {
    assert_eq!(to_human(1024), "1.00 KB");
    assert_eq!(to_human(1536), "1.50 KB");
    assert_eq!(to_human(1048575), "1024.00 KB");
    assert_eq!(to_human(1048576), "1.00 MB");
    assert_eq!(to_human(1572864), "1.50 MB");
    assert_eq!(to_human(1073741823), "1024.00 MB");
    assert_eq!(to_human(1073741824), "1.00 GB");
    assert_eq!(to_human(5 * 1073741824 + 268435456), "5.25 GB");
    assert_eq!(to_human(123456789), "117.74 MB");
}

#[test]
fn halves_round_to_the_even_hundredth() {
    assert_eq!(to_human(1152), "1.12 KB");
    assert_eq!(to_human(1408), "1.38 KB");
    assert_eq!(to_human(1664), "1.62 KB");
    assert_eq!(to_human(1029), "1.00 KB");
    assert_eq!(to_human(1030), "1.01 KB");
}

#[test]
fn the_largest_sizes() {
    assert_eq!(to_human(u64::MAX), "17179869184.00 GB");
    assert_eq!(to_human(1u64 << 63), "8589934592.00 GB");
    assert_eq!(to_human((1u64 << 53) + 1), "8388608.00 GB");
}

#[test]
fn agrees_with_division_in_double_precision() {
    for bytes in 0..300_000u64 {
        assert_eq!(to_human(bytes), with_floats(bytes), "{}", bytes);
    }
    let mut bytes: u64 = 1;
    while bytes < u64::MAX / 3 {
        for near in [bytes - 1, bytes, bytes + 1, bytes + bytes / 2, bytes + bytes / 8 + 1] {
            assert_eq!(to_human(near), with_floats(near), "{}", near);
        }
        bytes = bytes * 2 + (bytes % 3);
    }
    for shift in 0..64u32 {
        let base = 1u64 << shift;
        for k in 0..2000u64 {
            let n = base.wrapping_add(k.wrapping_mul(0x9E37_79B9_7F4A_7C15) >> (63 - shift));
            assert_eq!(to_human(n), with_floats(n), "{}", n);
            let m = base.wrapping_sub(k);
            assert_eq!(to_human(m), with_floats(m), "{}", m);
        }
    }
}

#[test]
fn agrees_where_bytes_lie_between_doubles() {
    for exponent in 53..64u32 {
        let step = 1u64 << (exponent - 52);
        let base = 1u64 << exponent;
        for k in 0..200u64 {
            for offset in [0, 1, step / 2 - 1, step / 2, step / 2 + 1, step - 1] {
                let n = base + k * step + offset;
                assert_eq!(to_human(n), with_floats(n), "{}", n);
            }
        }
    }
    for n in (u64::MAX - 5000)..=u64::MAX {
        assert_eq!(to_human(n), with_floats(n), "{}", n);
    }
}
