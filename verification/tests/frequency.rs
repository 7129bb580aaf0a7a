use hifi_decode::decimal::parse_decimal;
use hifi_decode::frequency::FrequencyError;

fn parse_frequency_mhz(value: &str) -> Result<f64, FrequencyError> {
    hifi_decode::parse_frequency_mhz(value).map(|x| f64::from_bits(x.bits))
}

fn parse(value: &str) -> f64 {
    parse_frequency_mhz(value).unwrap()
}

fn read(text: &str) -> Option<u64> {
    let chars: Vec<char> = text.chars().collect();
    parse_decimal(&chars).map(|x| x.bits)
}

#[test]
fn bare_number_is_mhz() {
    assert_eq!(parse("40"), 40.0);
    assert_eq!(parse(" 28.636 "), 28.636);
}

#[test]
fn decimal_suffixes_scale_to_mhz() {
    assert_eq!(parse("1ghz"), 1000.0);
    assert_eq!(parse("40MHz"), 40.0);
    assert_eq!(parse("40M"), 40.0);
    assert_eq!(parse("40000khz"), 40.0);
    assert_eq!(parse("40000000hz"), 40.0);
}

#[test]
fn subcarrier_suffixes_match_upstream() {
    assert!((parse("1fsc") - 3.579_545_454_545).abs() < 1e-9);
    assert!((parse("8fsc") - 28.636_363_636_363).abs() < 1e-9);
    assert_eq!(parse("1fscpal"), 4.433_618_75);
    assert_eq!(parse("4fscpal"), 4.433_618_75 * 4.0);
}

#[test]
fn unknown_suffix_and_bad_number_are_errors() {
    assert!(parse_frequency_mhz("8fps").is_err());
    assert!(parse_frequency_mhz("fsc").is_err());
}

#[test]
fn each_unit_is_one_exact_factor() {
    assert_eq!(parse("1").to_bits(), 1.0f64.to_bits());
    assert_eq!(parse("1g").to_bits(), 1.0e3f64.to_bits());
    assert_eq!(parse("1k").to_bits(), 1.0e-3f64.to_bits());
    assert_eq!(parse("1Hz").to_bits(), 1.0e-6f64.to_bits());
    assert_eq!(parse("1FSC").to_bits(), (315.0f64 / 88.0).to_bits());
    let pal = (283.75f64 * 15625.0 + 25.0) / 1.0e6;
    assert_eq!(parse("1fscPAL").to_bits(), pal.to_bits());
    assert_eq!(parse("28.636mhz"), 28.636);
    assert_eq!(parse("-0").to_bits(), (-0.0f64).to_bits());
    assert_eq!(parse("1e999"), f64::INFINITY);
    assert_eq!(parse("1e999hz"), f64::INFINITY);
}

#[test]
fn errors_say_what_is_wrong() {
    assert_eq!(
        parse_frequency_mhz("8Fps "),
        Err(FrequencyError::UnknownSuffix("Fps".to_string()))
    );
    assert_eq!(
        parse_frequency_mhz("8 mhz"),
        Err(FrequencyError::UnknownSuffix(" mhz".to_string()))
    );
    assert_eq!(
        parse_frequency_mhz("8\u{3bc}hz"),
        Err(FrequencyError::UnknownSuffix("\u{3bc}hz".to_string()))
    );
    for bad in ["", "fsc", "mhz", "fps", ".", "-", "+-4", "4e", "4e+", "e5", "1.2.3", "4-", "1e5e5"] {
        assert_eq!(parse_frequency_mhz(bad), Err(FrequencyError::InvalidNumber), "{bad:?}");
    }
    // The number is looked at first.
    assert_eq!(parse_frequency_mhz("1.2.3fps"), Err(FrequencyError::InvalidNumber));
}

#[test]
fn whitespace_around_a_frequency_is_ignored() {
    let mut codes: Vec<u32> = (0..0x180).collect();
    codes.extend(0x1670..0x1690);
    codes.extend(0x1FF0..0x2070);
    codes.extend(0x2FF8..0x3008);
    codes.push(0xFEFF);
    codes.push(0x180E);
    for code in codes {
        let c = char::from_u32(code).unwrap();
        let got = parse_frequency_mhz(&format!("{c}{c}5k{c}"));
        assert_eq!(got == Ok(0.005), c.is_whitespace(), "U+{code:04X}");
    }
    assert_eq!(parse_frequency_mhz("   "), Err(FrequencyError::InvalidNumber));
}

#[test]
fn decimals_read_like_the_standard_library_reads_them() {
    let mut state: u64 = 0x2545_F491_4F6C_DD1D;
    let mut next = |n: u64| -> u64 {
        state ^= state << 13;
        state ^= state >> 7;
        state ^= state << 17;
        state % n
    };
    for _ in 0..600 {
        let mut text = String::new();
        match next(4) {
            0 => text.push('-'),
            1 => text.push('+'),
            _ => {}
        }
        for _ in 0..next(25) {
            text.push(char::from(b'0' + next(10) as u8));
        }
        if next(3) > 0 {
            text.push('.');
            for _ in 0..next(25) {
                text.push(char::from(b'0' + next(10) as u8));
            }
        }
        if next(2) > 0 {
            text.push(if next(2) > 0 { 'e' } else { 'E' });
            if next(2) > 0 {
                text.push('-');
            }
            text.push_str(&format!("{}", next(345)));
        }
        let want = text.parse::<f64>().ok().map(|x| x.to_bits());
        assert_eq!(read(&text), want, "{text}");
    }
}

#[test]
fn decimals_halfway_between_two_numbers_go_to_even() {
    for text in [
        "9007199254740993",
        "9007199254740995",
        "9007199254740993.0000000000000000000000000000000001",
        "1.00000000000000011102230246251565404236316680908203125",
        "1.00000000000000011102230246251565404236316680908203124",
        "1.00000000000000011102230246251565404236316680908203126",
        "2.4703282292062327208e-324",
        "2.4703282292062328e-324",
        "4.9406564584124654e-324",
        "2.2250738585072011e-308",
        "1.7976931348623157e308",
        "1.7976931348623158e308",
        "1.7976931348623159e308",
        "179769313486231580793728971405303415079934132710037826936173778980444968292764750946649017977587207096330286416692887910946555547851940402630657488671505820681908902000708383676273854845817711531764475730270069855571366959622842914819860834936475292719074168444365510704342711559699508093042880",
    ] {
        let want = text.parse::<f64>().unwrap().to_bits();
        assert_eq!(read(text), Some(want), "{text}");
    }
}

#[test]
fn exponents_of_any_size_are_read() {
    for text in [
        "0e99999999999999999999999999999999999999999999",
        "1e99999999999999999999999999999999999999999999",
        "1e-99999999999999999999999999999999999999999999",
        "-1e-400",
        "1e400",
        "0.0000000001e318",
        "100000000000000000000e-340",
        "1e+5",
        "1e00005",
    ] {
        let want = text.parse::<f64>().unwrap().to_bits();
        assert_eq!(read(text), Some(want), "{text}");
    }
    let long = format!("0.{}1e400", "0".repeat(400));
    assert_eq!(read(&long), Some(long.parse::<f64>().unwrap().to_bits()));
    let long = format!("{}e-390", "9".repeat(390));
    assert_eq!(read(&long), Some(long.parse::<f64>().unwrap().to_bits()));
}
