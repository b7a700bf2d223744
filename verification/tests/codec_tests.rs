use ulid_codec::codec::{parse, ParseError};
use ulid_codec::codec::format as format_ulid;
use ulid_codec::commands::{split, GenerateError, PayloadValue, RandomUlid, UlidRandom};
use ulid_codec::ulid::Ulid;

const ALPHABET: &str = "0123456789ABCDEFGHJKMNPQRSTVWXYZ";

#[test]
fn format_has_26_alphabet_chars() {
    let samples: Vec<u128> = vec![
        0,
        1,
        12345,
        u128::MAX,
        0x4141_4141_4141_4141_4141_4141_4141_4141,
        0x8000_0000_0000_0000_0000,
    ];
    for v in samples {
        let s = format_ulid(&Ulid { value: v });
        assert_eq!(s.len(), 26);
        for c in s.chars() {
            assert!(ALPHABET.contains(c));
        }
    }
}

#[test]
fn format_known_value() {
    // The 128-bit value whose canonical encoding is known exactly.
    let u = Ulid { value: 0x4141_4141_4141_4141_4141_4141_4141_4141 };
    assert_eq!(format_ulid(&u), "21850M2GA1850M2GA1850M2GA1");
}

#[test]
fn format_zero_is_all_zero_digits() {
    assert_eq!(format_ulid(&Ulid { value: 0 }), "00000000000000000000000000");
}

#[test]
fn format_max_value() {
    assert_eq!(format_ulid(&Ulid { value: u128::MAX }), "7ZZZZZZZZZZZZZZZZZZZZZZZZZ");
}

#[test]
fn parse_known_value() {
    let u = parse("21850M2GA1850M2GA1850M2GA1").unwrap();
    assert_eq!(u.value, 0x4141_4141_4141_4141_4141_4141_4141_4141);
}

#[test]
fn round_trip_many_values() {
    let samples: Vec<u128> = vec![
        0,
        1,
        255,
        u128::MAX,
        0x0123_4567_89ab_cdef_0123_4567_89ab_cdef,
        0x1_0000_0000_0000_0000_0000,
        0xFFFF_FFFF_FFFF,
    ];
    for v in samples {
        let u = Ulid { value: v };
        let s = format_ulid(&u);
        let back = parse(&s).unwrap();
        assert_eq!(back, u);
    }
}

#[test]
fn parse_is_case_insensitive() {
    let s = "01ARZ3NDEKTSV4RRFFQ69G5FAV";
    let upper = parse(s).unwrap();
    let lower = parse(&s.to_lowercase()).unwrap();
    let mixed = parse("01arz3NDEKtsv4rrffq69g5fav").unwrap();
    assert_eq!(upper, lower);
    assert_eq!(upper, mixed);
}

#[test]
fn parse_trims_ascii_whitespace() {
    let u = parse("  01ARZ3NDEKTSV4RRFFQ69G5FAV\r\n").unwrap();
    let v = parse("01ARZ3NDEKTSV4RRFFQ69G5FAV").unwrap();
    assert_eq!(u, v);
}

#[test]
fn parse_rejects_empty() {
    assert_eq!(parse(""), Err(ParseError::InvalidLength));
}

#[test]
fn parse_rejects_short() {
    assert_eq!(parse("short"), Err(ParseError::InvalidLength));
}

#[test]
fn parse_rejects_excluded_letters() {
    // 26 characters long, but I and L are outside the alphabet.
    assert_eq!(
        parse("ILLEGALCHARSxxxxxxxxxxxxxx"),
        Err(ParseError::InvalidCharacter)
    );
}

#[test]
fn parse_rejects_27_chars() {
    assert_eq!(
        parse("01ARZ3NDEKTSV4RRFFQ69G5FAVA"),
        Err(ParseError::InvalidLength)
    );
}

#[test]
fn parse_truncates_high_bits_of_first_digit() {
    // 'Z' (31) as the first digit keeps only its low 3 bits, as a 128-bit
    // accumulator would: Z... and 7... decode alike.
    let a = parse("ZZZZZZZZZZZZZZZZZZZZZZZZZZ").unwrap();
    let b = parse("7ZZZZZZZZZZZZZZZZZZZZZZZZZ").unwrap();
    assert_eq!(a, b);
    assert_eq!(a.value, u128::MAX);
}

#[test]
fn format_is_monotonic_in_timestamp() {
    let g = RandomUlid;
    let pairs = [(0u64, 1u64), (1710848760000, 1710848760001), (5, 500000)];
    for (t1, t2) in pairs {
        let a = format_ulid(&g.generate(Some(t1), UlidRandom::Ones));
        let b = format_ulid(&g.generate(Some(t2), UlidRandom::Zeros));
        assert!(a < b);
    }
}

#[test]
fn timestamp_prefix_independent_of_payload() {
    let g = RandomUlid;
    let t = 1710848760000u64;
    let random = format_ulid(&g.generate(Some(t), UlidRandom::Random));
    let zeros = format_ulid(&g.generate(Some(t), UlidRandom::Zeros));
    assert_eq!(&random[..10], &zeros[..10]);
    let (_, payload) = split(&g.generate(Some(t), UlidRandom::Zeros));
    assert_eq!(payload, "0");
}

#[test]
fn interop_format_matches_ulid_crate() {
    let cases = [
        (0u64, 0u128),
        (1710848760000, 12345),
        (0xFFFF_FFFF_FFFF, 0xFFFF_FFFF_FFFF_FFFF_FFFF),
        (123456789, 0x1234_5678_9abc_def0_1234),
    ];
    for (t, r) in cases {
        let mine = format_ulid(&Ulid::from_parts(t, r));
        let theirs = ulid::Ulid::from_parts(t, r).to_string();
        assert_eq!(mine, theirs);
    }
}

#[test]
fn interop_parse_matches_ulid_crate() {
    let texts = ["01ARZ3NDEKTSV4RRFFQ69G5FAV", "7zzzzzzzzzzzzzzzzzzzzzzzzz"];
    for text in texts {
        let mine = parse(text).unwrap();
        let theirs: ulid::Ulid = text.parse().unwrap();
        assert_eq!(mine.value, theirs.0);
    }
}

#[test]
fn generate_with_conflicting_flags_fails() {
    let g = RandomUlid;
    assert_eq!(
        g.selected_randomness(true, true, None),
        Err(GenerateError::ConflictingOptions)
    );
}

#[test]
fn selected_randomness_flag_cases() {
    let g = RandomUlid;
    assert_eq!(g.selected_randomness(true, false, None), Ok(UlidRandom::Zeros));
    assert_eq!(g.selected_randomness(false, true, None), Ok(UlidRandom::Ones));
    assert_eq!(g.selected_randomness(false, false, None), Ok(UlidRandom::Random));
}

#[test]
fn selected_randomness_reads_decimal_text() {
    let g = RandomUlid;
    let p = PayloadValue::Text(String::from("12345"));
    assert_eq!(
        g.selected_randomness(false, false, Some(&p)),
        Ok(UlidRandom::Fixed(12345))
    );
}

#[test]
fn selected_randomness_negative_int_wraps() {
    let g = RandomUlid;
    let p = PayloadValue::Int(-1);
    assert_eq!(
        g.selected_randomness(false, false, Some(&p)),
        Ok(UlidRandom::Fixed(u128::MAX))
    );
}

#[test]
fn selected_randomness_rejects_bad_text() {
    let g = RandomUlid;
    let p = PayloadValue::Text(String::from("oops"));
    assert!(matches!(
        g.selected_randomness(false, false, Some(&p)),
        Err(GenerateError::Numeric(_))
    ));
}
