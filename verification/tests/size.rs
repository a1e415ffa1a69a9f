use mknight::size::{format_size, parse_size, F64_OVERFLOW_DIGITS, GIB, KIB, MIB};

/// The size computation carried out in binary floating point, as the size
/// format describes it: the numeric prefix read as an `f64`, scaled, rounded.
fn float_parse(input: &str) -> Result<u64, String> {
    let s = input.trim();
    if s.is_empty() {
        return Err("empty size value".to_string());
    }
    let split = s
        .find(|c: char| !(c.is_ascii_digit() || c == '.'))
        .unwrap_or(s.len());
    let (num_part, unit_part) = s.split_at(split);
    let value: f64 = num_part
        .parse()
        .map_err(|_| format!("invalid number in size '{input}'"))?;
    if value < 0.0 || !value.is_finite() {
        return Err(format!("size must be a positive number: '{input}'"));
    }
    let multiplier = match unit_part.trim().to_ascii_uppercase().as_str() {
        "" | "B" => 1,
        "K" | "KB" | "KIB" => KIB,
        "M" | "MB" | "MIB" => MIB,
        "G" | "GB" | "GIB" => GIB,
        other => return Err(format!("unknown size unit '{other}' in '{input}'")),
    };
    Ok((value * multiplier as f64).round() as u64)
}

/// The size text computed through `f64` and `{:.2}`.
fn float_format(bytes: u64) -> String {
    let b = bytes as f64;
    if bytes >= GIB {
        format!("{:.2} GB", b / GIB as f64)
    } else if bytes >= MIB {
        format!("{:.2} MB", b / MIB as f64)
    } else if bytes >= KIB {
        format!("{:.2} KB", b / KIB as f64)
    } else {
        format!("{bytes} B")
    }
}

#[test]
fn parses_bare_bytes() {
    assert_eq!(parse_size("1024").unwrap(), 1024);
}

#[test]
fn parses_units() {
    assert_eq!(parse_size("1KB").unwrap(), 1024);
    assert_eq!(parse_size("1MB").unwrap(), 1024 * 1024);
    assert_eq!(parse_size("1GB").unwrap(), 1024 * 1024 * 1024);
    assert_eq!(parse_size("500MB").unwrap(), 500 * 1024 * 1024);
}

#[test]
fn is_case_and_whitespace_insensitive() {
    assert_eq!(parse_size(" 2g ").unwrap(), 2 * GIB);
    assert_eq!(parse_size("2GiB").unwrap(), 2 * GIB);
}

#[test]
fn parses_fractional() {
    assert_eq!(parse_size("1.5GB").unwrap(), (1.5 * GIB as f64) as u64);
}

#[test]
fn rejects_garbage() {
    assert!(parse_size("").is_err());
    assert!(parse_size("abc").is_err());
    assert!(parse_size("10XB").is_err());
}

#[test]
fn formats_roundish() {
    assert_eq!(format_size(512), "512 B");
    assert_eq!(format_size(2 * MIB), "2.00 MB");
    assert_eq!(format_size(GIB + GIB / 2), "1.50 GB");
}

#[test]
fn error_messages() {
    assert_eq!(parse_size("   ").unwrap_err(), "empty size value");
    assert_eq!(parse_size(" abc").unwrap_err(), "invalid number in size ' abc'");
    assert_eq!(parse_size("1.2.3MB").unwrap_err(), "invalid number in size '1.2.3MB'");
    assert_eq!(parse_size(".").unwrap_err(), "invalid number in size '.'");
    assert_eq!(parse_size("10xb").unwrap_err(), "unknown size unit 'XB' in '10xb'");
    assert_eq!(parse_size("5 m b").unwrap_err(), "unknown size unit 'M B' in '5 m b'");
}

#[test]
fn units_and_spaces() {
    assert_eq!(parse_size("5 MB").unwrap(), 5 * MIB);
    assert_eq!(parse_size("\t7kib\n").unwrap(), 7 * KIB);
    assert_eq!(parse_size("3b").unwrap(), 3);
    assert_eq!(parse_size("3M").unwrap(), 3 * MIB);
    assert_eq!(parse_size("1.").unwrap(), 1);
    assert_eq!(parse_size(".5K").unwrap(), 512);
    assert_eq!(parse_size("\u{3000}4G\u{a0}").unwrap(), 4 * GIB);
}

#[test]
fn rounds_halves_up() {
    assert_eq!(parse_size("0.5").unwrap(), 1);
    assert_eq!(parse_size("0.49").unwrap(), 0);
    assert_eq!(parse_size("2.5").unwrap(), 3);
    assert_eq!(parse_size("0.0009765625K").unwrap(), 1);
    assert_eq!(parse_size("0.00048828125K").unwrap(), 1);
    assert_eq!(parse_size("0.000488K").unwrap(), 0);
}

#[test]
fn saturates_at_u64_max() {
    assert_eq!(parse_size("18446744073709551615").unwrap(), u64::MAX);
    assert_eq!(parse_size("99999999999999999999999G").unwrap(), u64::MAX);
    assert_eq!(parse_size("17179869184G").unwrap(), u64::MAX);
    assert_eq!(parse_size("17179869183G").unwrap(), 17179869183 * GIB);
}

#[test]
fn overflow_limit_is_the_float_limit() {
    let limit = F64_OVERFLOW_DIGITS;
    assert!(limit.parse::<f64>().unwrap().is_infinite());
    let mut below = limit.to_string();
    below.pop();
    below.push('1');
    assert!(below.parse::<f64>().unwrap().is_finite());
    assert_eq!(
        parse_size(limit).unwrap_err(),
        format!("size must be a positive number: '{limit}'")
    );
    assert_eq!(parse_size(&below).unwrap(), u64::MAX);
    let longer = format!("{limit}0KB");
    assert!(parse_size(&longer).is_err());
    let padded = format!("000{below}.999");
    assert_eq!(parse_size(&padded).unwrap(), u64::MAX);
}

#[test]
fn parse_agrees_with_float_computation() {
    let inputs = [
        "0", "1", "12", "1023", "1024", "65536", "1.5GB", "0.75 MB", "2.25k", "3.999G", "10.1",
        "123.456MB", "0.001GB", "7.000001K", "999999999999", "8.5 gib", "1e5", "-3", "+3",
        "1..2", "", " ", "x", "12 34", "4 kb ", "G", ".", "..", "0.1", "0.3M", "17.17G",
        "4096KIB", "2048Mib", "1.25", "2.5", "3.5", "0.5", "1.5", "9007199254740993",
        "9007199254740995", "9007199254740993.0000001", "0.49999999999999999",
        "0.49999999999999994", "1.0000000000000001G", "0.1K", "0.3K", "16777216.5",
        "4503599627370495.5", "4503599627370496.5", "17179869183.9999999999G",
        "0.0000000000000000000000000001G", "123456789012345678901234567890",
    ];
    for input in inputs {
        assert_eq!(parse_size(input), float_parse(input), "input {input:?}");
    }
}

#[test]
fn format_agrees_with_float_computation() {
    let mut values: Vec<u64> = vec![
        0, 1, 512, 1023, 1024, 1025, 1536, 10 * KIB + 5, MIB - 1, MIB, 2 * MIB, 3 * MIB + 5243,
        GIB - 1, GIB, GIB + GIB / 2, 3355443200, 3 * GIB + GIB / 8, 5 * GIB + 5 * GIB / 1000,
        (1u64 << 53) - 1, 1u64 << 53, (1u64 << 53) + 1, (1u64 << 53) + 3, (1u64 << 60) + 12345,
        u64::MAX - 1024, u64::MAX,
    ];
    let mut x: u64 = 0x9E37_79B9_7F4A_7C15;
    for _ in 0..2000 {
        x ^= x << 13;
        x ^= x >> 7;
        x ^= x << 17;
        values.push(x >> (x % 61));
    }
    for v in values {
        assert_eq!(format_size(v), float_format(v), "bytes {v}");
    }
}

#[test]
fn format_rounds_ties_to_even() {
    assert_eq!(format_size(3 * GIB + GIB / 8), "3.12 GB");
    assert_eq!(format_size(3 * GIB + 3 * GIB / 8), "3.38 GB");
    assert_eq!(format_size(u64::MAX), "17179869184.00 GB");
}

#[test]
fn letter_case_does_not_matter() {
    for (a, b) in [("5mib", "5MIB"), ("2.5gB", "2.5Gb"), ("1k", "1K"), ("9 b", "9 B")] {
        assert_eq!(parse_size(a), parse_size(b));
    }
}

#[test]
fn formatting_then_parsing_comes_back() {
    let values = [
        0u64, 1, 999, 1023, 1024, 1536, 123456, MIB - 1, MIB, 7 * MIB + 12345, GIB - 1, GIB,
        3 * GIB + 777, 1u64 << 40, (1u64 << 53) - 1, 1u64 << 60, u64::MAX,
    ];
    for b in values {
        let v = parse_size(&format_size(b)).unwrap();
        let unit = if b >= GIB {
            GIB
        } else if b >= MIB {
            MIB
        } else if b >= KIB {
            KIB
        } else {
            1
        };
        let printed = b as f64 as u128;
        let diff = (v as i128 - printed as i128).unsigned_abs();
        assert!(200 * diff <= unit as u128 + 100, "bytes {b} came back as {v}");
        if b < KIB {
            assert_eq!(v, b);
        }
    }
}

#[test]
fn reads_the_number_as_an_f64() {
    assert_eq!(parse_size("9007199254740993").unwrap(), 9007199254740992);
    assert_eq!(parse_size("9007199254740995").unwrap(), 9007199254740996);
    assert_eq!(parse_size("9007199254740993.0000001").unwrap(), 9007199254740994);
    assert_eq!(parse_size("0.49999999999999999").unwrap(), 1);
    assert_eq!(parse_size("0.49999999999999994").unwrap(), 0);
    assert_eq!(parse_size("4503599627370496.5").unwrap(), 4503599627370496);
}

#[test]
fn tiny_numbers_read_as_zero() {
    let tiny = format!("0.{}1G", "0".repeat(400));
    assert_eq!(parse_size(&tiny).unwrap(), 0);
    assert_eq!(parse_size("0.000000000000000000000000000000000001").unwrap(), 0);
    assert_eq!(parse_size("0.4999999G").unwrap(), float_parse("0.4999999G").unwrap());
}

#[test]
fn parse_agrees_with_float_computation_on_many_numbers() {
    let units = ["", "B", "k", "KB", "KiB", "m", "MB", "mib", "G", "gb", "GIB"];
    let mut x: u64 = 0x2545_F491_4F6C_DD1D;
    let mut next = move || {
        x ^= x << 13;
        x ^= x >> 7;
        x ^= x << 17;
        x
    };
    for _ in 0..20000 {
        let whole_len = (next() % 24) as usize;
        let frac_len = (next() % 30) as usize;
        let mut text = String::new();
        for i in 0..whole_len {
            let d = if i == 0 && next() % 3 == 0 { 0 } else { next() % 10 };
            text.push(char::from(b'0' + d as u8));
        }
        if frac_len > 0 || next() % 2 == 0 {
            text.push('.');
        }
        for _ in 0..frac_len {
            let r = next() % 10;
            let d = if r < 3 { 0 } else if r < 5 { 9 } else { next() % 10 };
            text.push(char::from(b'0' + d as u8));
        }
        text.push_str(units[(next() % units.len() as u64) as usize]);
        assert_eq!(parse_size(&text), float_parse(&text), "input {text:?}");
    }
}
