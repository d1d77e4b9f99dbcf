//! What the command line reads, and texts in general.
use shard_builder::cli::{human_bytes, parse_point_id, parse_slice};
use shard_builder::ids::{hex, uuid_name};
use shard_builder::json::{parse, quote_text, Json};
use shard_builder::names::{name_set, names_left_out, NameMap};
use shard_builder::records::PointId;
use shard_builder::text::{
    before, cat7, chars_of, debug_list, debug_set, decimal, join, parse_number, read_number, same,
    sort_names, strip_prefix, trim, trim_end_char, trim_start_char, white_space, NumberFault,
};

fn texts(list: &[&str]) -> Vec<String> {
    list.iter().map(|text| text.to_string()).collect()
}

#[test]
fn parses_numeric_and_uuid_point_ids() {
    assert_eq!(parse_point_id("42").unwrap(), PointId::NumId(42));
    assert!(matches!(
        parse_point_id("550e8400-e29b-41d4-a716-446655440000").unwrap(),
        PointId::Uuid(_),
    ));
    assert!(parse_point_id("not-an-id").is_err());
}

#[test]
fn point_ids_at_the_edges() {
    assert_eq!(parse_point_id("18446744073709551615"), Ok(PointId::NumId(u64::MAX)));
    assert_eq!(parse_point_id("+7"), Ok(PointId::NumId(7)));
    let uuid = 0x550e8400_e29b_41d4_a716_446655440000;
    for text in [
        "550e8400-e29b-41d4-a716-446655440000",
        "550E8400-E29B-41D4-A716-446655440000",
        "550e8400e29b41d4a716446655440000",
        "{550e8400-e29b-41d4-a716-446655440000}",
        "urn:uuid:550e8400-e29b-41d4-a716-446655440000",
        "URN:UUID:550e8400-e29b-41d4-a716-446655440000",
    ] {
        assert_eq!(parse_point_id(text), Ok(PointId::Uuid(uuid)), "{text}");
    }
    for text in ["", "-1", "18446744073709551616", "550e8400-e29b-41d4-a716-44665544000g"] {
        let message = parse_point_id(text).unwrap_err();
        let expected = format!("point id {text} is neither an integer nor a UUID: ");
        assert!(message.starts_with(&expected), "{message}");
        assert_eq!(
            message,
            expected + &uuid::Uuid::parse_str(text).unwrap_err().to_string(),
        );
    }
}

#[test]
fn uuids_are_written_and_read_back() {
    for uuid in [0u128, 1, 0x6ba7b812_9dad_11d1_80b4_00c04fd430c8, u128::MAX] {
        let name = uuid_name(uuid);
        assert_eq!(name, uuid::Uuid::from_u128(uuid).to_string());
        assert_eq!(parse_point_id(&name), Ok(PointId::Uuid(uuid)));
    }
}

#[test]
fn human_bytes_is_readable() {
    assert_eq!(human_bytes(512), "512 B");
    assert_eq!(human_bytes(1024), "1.00 KiB");
    assert_eq!(human_bytes(50 * 1024_u64.pow(4)), "50.00 TiB");
}

/// The same figures, computed in floating point.
fn float_bytes(bytes: u64) -> String {
    let units = ["B", "KiB", "MiB", "GiB", "TiB", "PiB"];
    let mut value = bytes as f64;
    let mut unit = 0;
    while value >= 1024.0 && unit + 1 < units.len() {
        value /= 1024.0;
        unit += 1;
    }
    if unit == 0 {
        format!("{bytes} B")
    } else {
        format!("{value:.2} {}", units[unit])
    }
}

#[test]
fn human_bytes_rounds_as_floating_point_does() {
    let mut bytes = vec![0, 1, 1023, 1024, 1025, u64::MAX, u64::MAX - 1, 1 << 53, (1 << 53) + 1];
    let mut x = 0x9e37_79b9_7f4a_7c15u64;
    for shift in 0..64 {
        bytes.push(1u64 << shift);
        bytes.push((1u64 << shift).wrapping_sub(1));
        bytes.push((1u64 << shift) + (1u64 << shift) / 3);
        for _ in 0..200 {
            x ^= x << 13;
            x ^= x >> 7;
            x ^= x << 17;
            bytes.push(x >> shift);
        }
    }
    // Halves of a hundredth, where rounding goes to the even digit.
    for n in 0..2000 {
        bytes.push(1024 + n * 128);
        bytes.push((1 << 20) + n * 131_072);
    }
    for n in bytes {
        assert_eq!(human_bytes(n), float_bytes(n), "{n}");
    }
}

#[test]
fn slices_are_read_from_the_command_line() {
    assert_eq!(parse_slice("0/1").unwrap_or_else(|_| panic!()), (0, 1));
    assert_eq!(parse_slice(" 3 / 8 ").unwrap_or_else(|_| panic!()), (3, 8));
    assert_eq!(parse_slice("+1/2").unwrap_or_else(|_| panic!()), (1, 2));
    let message = |given: &str| match parse_slice(given) {
        Ok(_) => panic!("{given} is no slice"),
        Err(fault) => fault.message(),
    };
    assert_eq!(message("3"), "--slice must look like I/N, got '3'");
    assert!(message("x/2").starts_with("--slice index 'x' is not a number"));
    assert!(message("1/y").starts_with("--slice total 'y' is not a number"));
    assert!(message("1/2/3").starts_with("--slice total '2/3' is not a number"));
    assert_eq!(message("2/2"), "--slice must be I/N with N >= 1 and I < N; got 2/2");
    assert_eq!(message("0/0"), "--slice must be I/N with N >= 1 and I < N; got 0/0");
}

// ----- Texts -----

#[test]
fn white_space_is_what_std_says() {
    for code in 0..=0x10ffff {
        if let Some(c) = char::from_u32(code) {
            assert_eq!(white_space(c), c.is_whitespace(), "{code:#x}");
        }
    }
    for text in ["", " ", "a", "  a b\t\n", "\u{2003}x\u{a0}"] {
        assert_eq!(trim(text), text.trim());
    }
    assert_eq!(trim_start_char("//a/", '/'), "a/");
    assert_eq!(trim_end_char("a//", '/'), "a");
    assert_eq!(strip_prefix("urn:x", "urn:"), Some("x"));
    assert_eq!(strip_prefix("x", "urn:"), None);
}

#[test]
fn numbers_are_read_as_std_reads_them() {
    for text in [
        "", "+", "-", "0", "00", "+0", "-0", "7", "+7", "-7", "1a", " 1", "18446744073709551615",
        "18446744073709551616", "99999999999999999999999x", "x99999999999999999999999", "++1",
    ] {
        let expected = text.parse::<u64>();
        assert_eq!(parse_number(text, u64::MAX), expected.clone().ok(), "{text}");
        match (read_number(text), expected) {
            (Ok(a), Ok(b)) => assert_eq!(a, b),
            (Err(a), Err(b)) => assert_eq!(a.message(), b.to_string(), "{text}"),
            _ => panic!("{text} is read differently"),
        }
    }
    assert_eq!(parse_number("256", 255), None);
    assert_eq!(parse_number("255", 255), Some(255));
    assert!(matches!(read_number("x"), Err(NumberFault::InvalidDigit)));
}

#[test]
fn decimals_have_no_leading_zeros() {
    for n in [0u128, 9, 10, 12345, u128::MAX] {
        assert_eq!(decimal(n), n.to_string());
    }
}

#[test]
fn texts_are_ordered_by_their_characters() {
    let list = ["", "a", "ab", "b", "B", "é", "z", "\u{10ffff}", "ａ"];
    for a in list {
        for b in list {
            assert_eq!(before(a, b), a < b, "{a} {b}");
            assert_eq!(same(a, b), a == b);
        }
    }
    let mut expected = texts(&list);
    expected.sort();
    assert_eq!(sort_names(texts(&list)), expected);
    assert_eq!(chars_of("aé"), vec!['a', 'é']);
}

#[test]
fn lists_are_quoted_as_debug_output() {
    let list = texts(&["a", "b\"c", "d\n"]);
    assert_eq!(debug_list(&list), format!("{list:?}"));
    assert_eq!(debug_list(&vec![]), "[]");
    let set: std::collections::BTreeSet<String> = list.iter().cloned().collect();
    assert_eq!(debug_set(&list), format!("{set:?}"));
    assert_eq!(join(&texts(&["a", "b", "c"]), ", "), "a, b, c");
    assert_eq!(join(&vec![], ", "), "");
    assert_eq!(cat7("1", "2", "3", "4", "5", "6", "7"), "1234567");
}

#[test]
fn bytes_are_written_in_hexadecimal() {
    assert_eq!(hex(&[0x00, 0x0f, 0xf0, 0xff]), "000ff0ff");
    assert_eq!(hex(&[]), "");
}

#[test]
fn json_is_written_as_serde_writes_it() {
    for text in ["", "plain", "quote\"back\\slash", "tab\tnew\nline", "\u{1}\u{7f}é\u{2028}"] {
        assert_eq!(quote_text(text), serde_json::to_string(text).unwrap());
    }
    let value = Json::Object(vec![
        ("a".to_string(), Json::List(vec![Json::Null, Json::Bool(true), Json::Bool(false)])),
        ("b".to_string(), Json::Unsigned(u64::MAX)),
        ("c".to_string(), Json::Negative(-5)),
        ("d".to_string(), Json::Decimal("0.2".to_string())),
        ("e\"".to_string(), Json::Text("x".to_string())),
        ("f".to_string(), Json::Object(vec![])),
    ]);
    let text = value.to_text();
    assert_eq!(
        text,
        r#"{"a":[null,true,false],"b":18446744073709551615,"c":-5,"d":0.2,"e\"":"x","f":{}}"#,
    );
    let parsed: serde_json::Value = serde_json::from_str(&text).unwrap();
    assert_eq!(parsed.to_string(), text);
    assert!(value.copy().same(&value));
    assert!(!value.same(&Json::Null));
    assert_eq!(value.get("c").unwrap().to_text(), "-5");
    assert!(value.get("z").is_none());
}

/// A value ends where its text does, also a decimal that holds no number.
#[test]
fn a_decimal_that_is_no_number_is_written_as_a_string() {
    for number in ["0.5", "-1.25e-7", "1E+9", "18446744073709551616"] {
        assert_eq!(Json::Decimal(number.to_string()).to_text(), number);
    }
    for (held, text) in [("", r#""""#), ("1,2", r#""1,2""#), ("NaN", r#""NaN""#), ("1}", r#""1}""#)] {
        assert_eq!(Json::Decimal(held.to_string()).to_text(), text);
    }
}

#[test]
fn json_is_read_as_serde_reads_it() {
    for text in [
        "null",
        " true ",
        "[false, 18446744073709551615, -9223372036854775808, 0.2, 1e3, 18446744073709551616]",
        r#"{"z": 1, "a": [{}, "\u00e9\n"], "z2": -0.0}"#,
        r#"{"twice": 1, "other": 2, "twice": 3}"#,
    ] {
        let value: serde_json::Value = serde_json::from_str(text).unwrap();
        assert_eq!(parse(text).unwrap().to_text(), value.to_string(), "{text}");
    }
    assert!(matches!(parse("7"), Ok(Json::Unsigned(7))));
    assert!(matches!(parse("-7"), Ok(Json::Negative(-7))));
    assert!(matches!(parse("0.5"), Ok(Json::Decimal(digits)) if digits == "0.5"));
    for text in ["", "{", "[1,]", "nul", "\"", "1 2"] {
        let why = serde_json::from_str::<serde_json::Value>(text).unwrap_err().to_string();
        assert_eq!(parse(text).unwrap_err(), why);
    }
}

#[test]
fn named_tables_keep_their_names_in_order() {
    let mut table = NameMap::new();
    for name in ["m", "a", "z", "m"] {
        table.insert(name.to_string(), name.len());
    }
    table.insert("a".to_string(), 9);
    assert_eq!(table.names(), ["a", "m", "z"]);
    assert_eq!(table.get("a"), Some(&9));
    assert_eq!(table.get("b"), None);
    assert!(table.contains("z"));
    assert_eq!(table.copy().len(), 3);

    let set = name_set(&texts(&["b", "a", "b"]));
    assert_eq!(set.names(), ["a", "b"]);
    assert_eq!(names_left_out(&texts(&["x", "a", "y"]), &set), ["x", "y"]);
}
