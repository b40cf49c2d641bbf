use mmapzstd::text::{format_bytes, push_decimal, push_padded, push_signed, with_commas};

fn by_floats(n: u64) -> String {
    if n >= 1024 * 1024 * 1024 {
        format!("{:.1} GiB", n as f64 / (1024.0 * 1024.0 * 1024.0))
    } else if n >= 1024 * 1024 {
        format!("{:.1} MiB", n as f64 / (1024.0 * 1024.0))
    } else if n >= 1024 {
        format!("{:.1} KiB", n as f64 / 1024.0)
    } else {
        format!("{} B", n)
    }
}

#[test]
fn commas() {
    assert_eq!(with_commas(0), "0");
    assert_eq!(with_commas(7), "7");
    assert_eq!(with_commas(999), "999");
    assert_eq!(with_commas(1000), "1,000");
    assert_eq!(with_commas(2668), "2,668");
    assert_eq!(with_commas(1005007), "1,005,007");
    assert_eq!(with_commas(224226015), "224,226,015");
    assert_eq!(with_commas(u64::MAX), "18,446,744,073,709,551,615");
    for n in [0u64, 12, 123, 1234, 12345, 123456, 1234567, 100000000] {
        assert_eq!(with_commas(n).replace(",", ""), format!("{}", n));
    }
}

#[test]
fn bytes() {
    assert_eq!(format_bytes(0), "0 B");
    assert_eq!(format_bytes(1023), "1023 B");
    assert_eq!(format_bytes(1024), "1.0 KiB");
    assert_eq!(format_bytes(1280), "1.2 KiB");
    assert_eq!(format_bytes(1792), "1.8 KiB");
    assert_eq!(format_bytes(1048575), "1024.0 KiB");
    assert_eq!(format_bytes(1048576), "1.0 MiB");
    assert_eq!(format_bytes(4194304), "4.0 MiB");
    assert_eq!(format_bytes(1932735283), "1.8 GiB");
    assert_eq!(format_bytes(u64::MAX), "17179869184.0 GiB");
}

fn shown_tenths(text: &str) -> u128 {
    let (number, unit) = text.split_once(' ').unwrap();
    let scale: u128 = match unit {
        "GiB" => 1 << 30,
        "MiB" => 1 << 20,
        "KiB" => 1 << 10,
        _ => 1,
    };
    match number.split_once('.') {
        Some((whole, tenth)) => {
            (whole.parse::<u128>().unwrap() * 10 + tenth.parse::<u128>().unwrap()) * scale
        }
        None => number.parse::<u128>().unwrap() * 10 * scale,
    }
}

#[test]
fn shown_size_grows() {
    let mut values: Vec<u64> = (0u64..5000).collect();
    for unit in [1u64 << 20, 1 << 30, 1 << 53, 1 << 63] {
        values.extend((0u64..300).map(|k| unit - 150 + k));
        values.extend((0u64..300).map(|k| unit - unit / 7 + k * (unit / 1000)));
    }
    values.push(u64::MAX);
    values.sort();
    for pair in values.windows(2) {
        assert!(
            shown_tenths(&format_bytes(pair[0])) <= shown_tenths(&format_bytes(pair[1])),
            "{:?}",
            pair
        );
    }
    assert_eq!(shown_tenths("1024.0 KiB"), shown_tenths("1.0 MiB"));
}

#[test]
fn bytes_agree_with_floating_point() {
    let mut n: u64 = 1;
    for _ in 0..200_000 {
        n = n.wrapping_mul(6364136223846793005).wrapping_add(1442695040888963407);
        for shift in [0u32, 5, 11, 23, 31, 40, 44, 52] {
            let m = n >> shift;
            assert_eq!(format_bytes(m), by_floats(m));
        }
    }
}

#[test]
fn bytes_agree_with_floating_point_near_ties() {
    for unit in [1u64 << 10, 1 << 20, 1 << 30] {
        for k in 0u64..400 {
            let tie = (k * unit) / 20 + unit;
            for d in 0u64..7 {
                let n = tie + d - 3;
                assert_eq!(format_bytes(n), by_floats(n));
            }
        }
    }
    for k in 0u64..4000 {
        let n = (1u64 << 63) + k * 53_687_091 + (k % 3) * 1024 + 512;
        assert_eq!(format_bytes(n), by_floats(n));
        let n = (1u64 << 62) + (k << 29) + k % 5;
        assert_eq!(format_bytes(n), by_floats(n));
    }
}

#[test]
fn appending() {
    let mut s = String::from("x");
    push_decimal(&mut s, u128::MAX);
    assert_eq!(s, "x340282366920938463463374607431768211455");
    let mut s = String::new();
    push_signed(&mut s, i64::MIN);
    push_signed(&mut s, -1);
    push_signed(&mut s, 0);
    push_signed(&mut s, i64::MAX);
    assert_eq!(s, "-9223372036854775808-109223372036854775807");
    let mut s = String::from("|");
    push_padded(&mut s, "ab", 4);
    push_padded(&mut s, "abcd", 4);
    push_padded(&mut s, "abcde", 4);
    push_padded(&mut s, "", 2);
    push_padded(&mut s, "\u{e4}", 2);
    assert_eq!(s, "|ab  abcdabcde  \u{e4} ");
}
