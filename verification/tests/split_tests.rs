use chrono::{Datelike, Timelike};
use ulid_codec::codec::ParseError;
use ulid_codec::commands::{split, unix_millis, ParseUlid, RandomUlid, UlidRandom};
use ulid_codec::datetime::datetime_of_millis;
use ulid_codec::decimal::{parse_u128, to_decimal, NumericParseError};
use ulid_codec::ulid::Ulid;
use ulid_codec::UlidPlugin;

#[test]
fn split_zeros_payload_is_decimal_zero() {
    let g = RandomUlid;
    for t in [0u64, 7, 1710848760000] {
        let u = g.generate(Some(t), UlidRandom::Zeros);
        let (_, payload) = split(&u);
        assert_eq!(payload, "0");
    }
}

#[test]
fn split_ones_payload_is_two_pow_80_minus_one() {
    let g = RandomUlid;
    for t in [0u64, 1710848760000] {
        let u = g.generate(Some(t), UlidRandom::Ones);
        let (_, payload) = split(&u);
        assert_eq!(payload, "1208925819614629174706175");
    }
}

#[test]
fn split_fixed_payload_is_its_decimal_text() {
    let g = RandomUlid;
    let u = g.generate(Some(1710848760000), UlidRandom::Fixed(12345));
    let (_, payload) = split(&u);
    assert_eq!(payload, "12345");
}

#[test]
fn split_datetime_of_known_timestamp() {
    // 1710848760000 ms is 2024-03-19T11:46:00.000 UTC.
    let g = RandomUlid;
    let u = g.generate(Some(1710848760000), UlidRandom::Random);
    let (d, _) = split(&u);
    assert_eq!(d.year, 2024);
    assert_eq!(d.month, 3);
    assert_eq!(d.day, 19);
    assert_eq!(d.hour, 11);
    assert_eq!(d.minute, 46);
    assert_eq!(d.second, 0);
    assert_eq!(d.millisecond, 0);
}

#[test]
fn datetime_matches_chrono_for_many_instants() {
    let instants: [u64; 5] = [0, 1, 86_400_000, 1710848760000, 0xFFFF_FFFF_FFFF];
    for ms in instants {
        let d = datetime_of_millis(ms);
        let c = chrono::DateTime::from_timestamp_millis(ms as i64).unwrap();
        assert_eq!(d.year, c.year());
        assert_eq!(d.month as u32, c.month());
        assert_eq!(d.day as u32, c.day());
        assert_eq!(d.hour as u32, c.hour());
        assert_eq!(d.minute as u32, c.minute());
        assert_eq!(d.second as u32, c.second());
        assert_eq!(d.millisecond as u32, c.timestamp_subsec_millis());
    }
}

#[test]
fn parse_command_round_trips_known_text() {
    let p = ParseUlid;
    let (d, payload) = p.run("01HSB9SWNGC1H2KKWHMAJ3P82H").unwrap();
    let u: Ulid = ulid_codec::codec::parse("01HSB9SWNGC1H2KKWHMAJ3P82H").unwrap();
    let (d2, payload2) = split(&u);
    assert_eq!(d, d2);
    assert_eq!(payload, payload2);
}

#[test]
fn parse_command_reports_errors() {
    let p = ParseUlid;
    assert_eq!(p.run("nonsense"), Err(ParseError::InvalidLength));
    assert_eq!(
        p.run("ULIDULIDULIDULIDULIDULIDUL"),
        Err(ParseError::InvalidCharacter)
    );
}

#[test]
fn to_decimal_exact_values() {
    assert_eq!(to_decimal(0), "0");
    assert_eq!(to_decimal(7), "7");
    assert_eq!(to_decimal(10), "10");
    assert_eq!(to_decimal(1208925819614629174706175), "1208925819614629174706175");
    assert_eq!(to_decimal(u128::MAX), "340282366920938463463374607431768211455");
}

#[test]
fn parse_u128_accepts_digits_and_plus() {
    assert_eq!(parse_u128("0"), Ok(0));
    assert_eq!(parse_u128("12345"), Ok(12345));
    assert_eq!(parse_u128("+12345"), Ok(12345));
    assert_eq!(
        parse_u128("340282366920938463463374607431768211455"),
        Ok(u128::MAX)
    );
}

#[test]
fn parse_u128_rejects_bad_input() {
    assert_eq!(parse_u128(""), Err(NumericParseError::Invalid));
    assert_eq!(parse_u128("+"), Err(NumericParseError::Invalid));
    assert_eq!(parse_u128("12a45"), Err(NumericParseError::Invalid));
    assert_eq!(parse_u128("-3"), Err(NumericParseError::Invalid));
    assert_eq!(
        parse_u128("340282366920938463463374607431768211456"),
        Err(NumericParseError::Overflow)
    );
}

#[test]
fn parse_u128_agrees_with_std() {
    for s in ["0", "+987654321", "99999999999999999999999999999999999999", "x", ""] {
        match (parse_u128(s), s.parse::<u128>()) {
            (Ok(a), Ok(b)) => assert_eq!(a, b),
            (Err(_), Err(_)) => {}
            _ => panic!("library and std disagree"),
        }
    }
}

#[test]
fn unix_millis_prefers_given_timestamp() {
    assert_eq!(unix_millis(Some(5)), 5);
    assert_eq!(unix_millis(Some(u64::MAX)), u64::MAX);
}

#[test]
fn generate_masks_timestamp_to_48_bits() {
    let g = RandomUlid;
    let over = 0x1_0000_0000_0000u64 + 77;
    let u = g.generate(Some(over), UlidRandom::Zeros);
    assert_eq!(u.timestamp_ms(), 77);
}

#[test]
fn generate_masks_payload_to_80_bits() {
    let g = RandomUlid;
    let u = g.generate(Some(0), UlidRandom::Fixed(u128::MAX));
    assert_eq!(u.random(), 0xFFFF_FFFF_FFFF_FFFF_FFFFu128);
}

#[test]
fn plugin_handle_constructs() {
    let _p = UlidPlugin::new();
    let g = RandomUlid;
    let u1 = g.generate(None, UlidRandom::Random);
    let s = ulid_codec::codec::format(&u1);
    assert_eq!(s.len(), 26);
}

#[test]
fn random_payloads_differ() {
    let g = RandomUlid;
    let a = g.generate(Some(0), UlidRandom::Random);
    let b = g.generate(Some(0), UlidRandom::Random);
    // 80 random bits colliding twice in a row is, for a working source,
    // not going to happen.
    assert_ne!(a.random(), b.random());
}

#[test]
fn run_produces_text_of_generated_ulid() {
    let g = RandomUlid;
    let (u, text) = g.run(Some(1710848760000), false, false, None).unwrap();
    assert_eq!(text, ulid_codec::codec::format(&u));
    assert_eq!(u.timestamp_ms(), 1710848760000);
}
