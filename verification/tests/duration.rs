use runlog::duration::{decode, encode};

const MICROS_PER_MILLI: i64 = 1_000;
const MICROS_PER_SECOND: i64 = 1_000_000;
const MICROS_PER_MINUTE: i64 = 60_000_000;
const MICROS_PER_HOUR: i64 = 3_600_000_000;
const MICROS_PER_DAY: i64 = 86_400_000_000;
const MICROS_PER_WEEK: i64 = 604_800_000_000;

#[test]
fn decode_single_units() {
    assert_eq!(decode("30m").unwrap(), 30 * MICROS_PER_MINUTE);
    assert_eq!(decode("45s").unwrap(), 45 * MICROS_PER_SECOND);
    assert_eq!(decode("500ms").unwrap(), 500 * MICROS_PER_MILLI);
    assert_eq!(decode("2w").unwrap(), 2 * MICROS_PER_WEEK);
    assert_eq!(decode("1d").unwrap(), MICROS_PER_DAY);
    assert_eq!(decode("3h").unwrap(), 3 * MICROS_PER_HOUR);
    assert_eq!(decode("1us").unwrap(), 1);
    assert_eq!(decode("0s").unwrap(), 0);
}

#[test]
fn decode_sums_unit_components() {
    assert_eq!(decode("1h30m").unwrap(), MICROS_PER_HOUR + 30 * MICROS_PER_MINUTE);
    assert_eq!(
        decode("1w2d3h4m5s6ms7us").unwrap(),
        MICROS_PER_WEEK
            + 2 * MICROS_PER_DAY
            + 3 * MICROS_PER_HOUR
            + 4 * MICROS_PER_MINUTE
            + 5 * MICROS_PER_SECOND
            + 6 * MICROS_PER_MILLI
            + 7
    );
    // Repeated units are allowed and simply summed.
    assert_eq!(decode("1h1h").unwrap(), 2 * MICROS_PER_HOUR);
}

#[test]
fn decode_leading_zeros() {
    assert_eq!(decode("007s").unwrap(), 7 * MICROS_PER_SECOND);
    assert_eq!(decode("000000000000000000000001s").unwrap(), MICROS_PER_SECOND);
}

#[test]
fn decode_maximal_munch() {
    // `ms` is milliseconds, not minutes followed by stray text.
    assert_eq!(decode("1ms").unwrap(), MICROS_PER_MILLI);
    // `m` directly before a digit is minutes.
    assert_eq!(decode("1m30s").unwrap(), MICROS_PER_MINUTE + 30 * MICROS_PER_SECOND);
}

#[test]
fn decode_rejects_malformed() {
    assert!(decode("").is_err());
    assert!(decode("30").is_err());
    assert!(decode("m").is_err());
    assert!(decode("1x").is_err());
    assert!(decode("h1").is_err());
    assert!(decode("-5s").is_err());
    assert!(decode(" 30m").is_err());
    assert!(decode("1h 30m").is_err());
    assert!(decode("1.5h").is_err());
    assert!(decode("us").is_err());
    assert!(decode("1u").is_err());
    assert!(decode("30m ").is_err());
}

#[test]
fn decode_rejects_unrepresentable() {
    // One microsecond past the largest representable interval.
    assert_eq!(decode("9223372036854775807us").unwrap(), i64::MAX);
    assert!(decode("9223372036854775808us").is_err());
    // A huge digit string, far beyond the interval range.
    assert!(decode("999999999999999999999999w").is_err());
    // The running sum, not only a single term, must fit.
    assert!(decode("9223372036854775807us1us").is_err());
}

#[test]
fn encode_canonical_forms() {
    assert_eq!(encode(0), "0s");
    assert_eq!(encode(30 * MICROS_PER_MINUTE), "30m");
    assert_eq!(encode(MICROS_PER_HOUR + 30 * MICROS_PER_MINUTE), "1h30m");
    assert_eq!(encode(123), "123us");
    assert_eq!(encode(MICROS_PER_MILLI), "1ms");
    assert_eq!(encode(MICROS_PER_SECOND), "1s");
    assert_eq!(encode(MICROS_PER_WEEK), "1w");
    assert_eq!(
        encode(
            MICROS_PER_WEEK
                + 2 * MICROS_PER_DAY
                + 3 * MICROS_PER_HOUR
                + 4 * MICROS_PER_MINUTE
                + 5 * MICROS_PER_SECOND
                + 6 * MICROS_PER_MILLI
                + 7
        ),
        "1w2d3h4m5s6ms7us"
    );
}

#[test]
fn encode_is_deterministic() {
    let samples: [i64; 4] = [0, 1, 30 * MICROS_PER_MINUTE, i64::MAX];
    for v in samples {
        assert_eq!(encode(v), encode(v));
    }
}

#[test]
fn encode_then_decode_round_trips() {
    let samples: [i64; 9] = [
        0,
        1,
        999,
        MICROS_PER_MILLI,
        30 * MICROS_PER_MINUTE,
        MICROS_PER_HOUR + 30 * MICROS_PER_MINUTE,
        MICROS_PER_WEEK - 1,
        123_456_789_012_345,
        i64::MAX,
    ];
    for v in samples {
        assert_eq!(decode(&encode(v)).unwrap(), v);
    }
}

#[test]
fn decode_agrees_with_humantime_on_common_strings() {
    // On strings both grammars accept, the value must agree with the
    // widely used parser of the same compound-unit style.
    let samples = ["30m", "1h30m", "500ms", "2w", "1d", "45s", "90s", "1h", "2h45m", "10s"];
    for s in samples {
        let ours = decode(s).unwrap();
        let theirs = humantime::parse_duration(s).unwrap().as_micros();
        assert_eq!(ours as u128, theirs, "mismatch on {}", s);
    }
}
