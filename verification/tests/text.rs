use save_format::class::ByteClass;
use save_format::value::is_decimal;
use save_format::{
    hashmap_to_string, parse_bytes, parse_str, slice_to_string, Error, Mapping, Number, Value,
    Vec2, Vec3,
};

fn num(text: &str) -> Number<'_> {
    match text.strip_prefix('-') {
        Some(digits) => Number::new(true, digits).unwrap(),
        None => Number::new(false, text).unwrap(),
    }
}

#[test]
fn leading_minus_negates_only_the_first_number() {
    let parsed = parse_str("[a] -1 2 3").unwrap();
    let value = parsed.get("a").unwrap();
    let triple = value.as_vec3();
    assert!(triple.x.is_negative());
    assert_eq!(triple.x.digits(), "1");
    assert!(!triple.y.is_negative());
    assert_eq!(triple.y.digits(), "2");
    assert!(!triple.z.is_negative());
    assert_eq!(triple.z.digits(), "3");
    assert_eq!(
        *value,
        Value::Vec3(Vec3 { x: num("-1"), y: num("2"), z: num("3") })
    );
}

#[test]
fn minus_in_a_later_token_negates_that_token() {
    let parsed = parse_str("[a] 1 -2.5\n").unwrap();
    assert_eq!(
        *parsed.get("a").unwrap(),
        Value::Vec2(Vec2 { x: num("1"), y: num("-2.5") })
    );
}

#[test]
fn key_without_bracket_before_a_space_is_unfinished() {
    assert_eq!(parse_str("[a 1").unwrap_err(), Error::UnfinishedKey(2));
}

#[test]
fn key_without_bracket_before_the_end_is_unfinished() {
    assert_eq!(parse_str("[abc").unwrap_err(), Error::UnfinishedKey(4));
    assert_eq!(parse_str("[").unwrap_err(), Error::UnfinishedKey(1));
}

#[test]
fn unknown_top_level_byte_is_invalid() {
    assert_eq!(parse_str("x").unwrap_err(), Error::InvalidCharacter(0));
    assert_eq!(parse_str("\n\n x").unwrap_err(), Error::InvalidCharacter(3));
    assert_eq!(parse_str("[a] 1\n]").unwrap_err(), Error::InvalidCharacter(6));
}

#[test]
fn string_round_trip() {
    let parsed = parse_str("[name] \"hello\"").unwrap();
    assert_eq!(*parsed.get("name").unwrap(), Value::String("hello"));
    assert_eq!(parsed.get("name").unwrap().as_str(), "hello");
    assert_eq!(hashmap_to_string(parsed), "[name] \"hello\"\n");
}

#[test]
fn string_may_hold_anything_but_a_quote() {
    let parsed = parse_str("[s] \"a [b] \n c é\"\n").unwrap();
    assert_eq!(*parsed.get("s").unwrap(), Value::String("a [b] \n c é"));
    let parsed = parse_str("[s] \"\"").unwrap();
    assert_eq!(*parsed.get("s").unwrap(), Value::String(""));
}

#[test]
fn string_without_closing_quote_is_unfinished() {
    assert_eq!(parse_str("[k] \"abc").unwrap_err(), Error::UnfinishedKey(8));
    assert_eq!(parse_str("[k] \"").unwrap_err(), Error::UnfinishedKey(5));
}

#[test]
fn boolean_literals() {
    let parsed = parse_str("[flag] true").unwrap();
    assert_eq!(*parsed.get("flag").unwrap(), Value::Bool(true));
    let parsed = parse_str("[flag] false").unwrap();
    assert_eq!(*parsed.get("flag").unwrap(), Value::Bool(false));
}

#[test]
fn misspelt_boolean_is_rejected_where_it_departs() {
    assert_eq!(parse_str("[flag] tru").unwrap_err(), Error::InvalidKeyword(10));
    assert_eq!(parse_str("[flag] trux").unwrap_err(), Error::InvalidKeyword(10));
    assert_eq!(parse_str("[flag] t").unwrap_err(), Error::InvalidKeyword(8));
    assert_eq!(parse_str("[flag] False").unwrap_err(), Error::InvalidCharacter(7));
    assert_eq!(parse_str("[flag] fals\n").unwrap_err(), Error::InvalidKeyword(11));
    assert_eq!(parse_str("[flag] ftrue").unwrap_err(), Error::InvalidKeyword(8));
}

#[test]
fn what_follows_a_keyword_is_read_at_top_level() {
    assert_eq!(parse_str("[flag] truex").unwrap_err(), Error::InvalidCharacter(11));
    let parsed = parse_str("[a] true[b] false").unwrap();
    assert_eq!(parsed.len(), 2);
    assert_eq!(*parsed.get("b").unwrap(), Value::Bool(false));
}

#[test]
fn arity_decides_the_variant() {
    let parsed = parse_str("[a] 1\n[b] 1 2\n[c] 1 2 3\n[d] 1 2 3 4\n[e] 1 2 3 4 5 \n").unwrap();
    assert_eq!(*parsed.get("a").unwrap(), Value::Num(num("1")));
    assert_eq!(parsed.get("a").unwrap().as_num(), num("1"));
    assert_eq!(*parsed.get("b").unwrap(), Value::Vec2(Vec2 { x: num("1"), y: num("2") }));
    assert_eq!(parsed.get("b").unwrap().as_vec2().y, num("2"));
    assert_eq!(
        *parsed.get("c").unwrap(),
        Value::Vec3(Vec3 { x: num("1"), y: num("2"), z: num("3") })
    );
    assert_eq!(
        *parsed.get("d").unwrap(),
        Value::Vec(vec![num("1"), num("2"), num("3"), num("4")])
    );
    assert_eq!(
        parsed.get("e").unwrap().as_vec(),
        &[num("1"), num("2"), num("3"), num("4"), num("5")][..]
    );
}

#[test]
fn decimal_literals() {
    let parsed = parse_str("[a] 12.5 .5 5. -0\n").unwrap();
    assert_eq!(
        *parsed.get("a").unwrap(),
        Value::Vec(vec![num("12.5"), num(".5"), num("5."), num("-0")])
    );
}

#[test]
fn malformed_numbers_are_rejected_at_their_first_byte() {
    assert_eq!(parse_str("[k] 1.2.3").unwrap_err(), Error::InvalidNumber(4));
    assert_eq!(parse_str("[k] 1 2.3.4").unwrap_err(), Error::InvalidNumber(6));
    assert_eq!(parse_str("[k] -").unwrap_err(), Error::InvalidNumber(4));
    assert_eq!(parse_str("[k] -.").unwrap_err(), Error::InvalidNumber(4));
    assert_eq!(parse_str("[k] 1  2").unwrap_err(), Error::InvalidNumber(6));
    assert_eq!(parse_str("[k] 1 x").unwrap_err(), Error::InvalidNumber(6));
    assert_eq!(parse_str("[k] 1\r\n").unwrap_err(), Error::InvalidNumber(5));
    assert_eq!(parse_str("[k] 1 --2").unwrap_err(), Error::InvalidNumber(6));
}

#[test]
fn empty_value() {
    let parsed = parse_str("[k] \n").unwrap();
    assert_eq!(*parsed.get("k").unwrap(), Value::Empty);
    let parsed = parse_str("[k]\n[l] 1").unwrap();
    assert_eq!(*parsed.get("k").unwrap(), Value::Empty);
    assert_eq!(*parsed.get("l").unwrap(), Value::Num(num("1")));
}

#[test]
fn end_of_input_where_a_value_is_due() {
    assert_eq!(parse_str("[k]").unwrap_err(), Error::UnfinishedKey(3));
    assert_eq!(parse_str("[k]   ").unwrap_err(), Error::UnfinishedKey(6));
}

#[test]
fn invalid_byte_where_a_value_is_due() {
    assert_eq!(parse_str("[k] x").unwrap_err(), Error::InvalidCharacter(4));
    assert_eq!(parse_str("[k]\r\n").unwrap_err(), Error::InvalidCharacter(3));
}

#[test]
fn key_ends_at_the_first_bracket() {
    let parsed = parse_str("[a]1").unwrap();
    assert_eq!(*parsed.get("a").unwrap(), Value::Num(num("1")));
    assert_eq!(parse_str("[a]b] 1").unwrap_err(), Error::InvalidCharacter(3));
    let parsed = parse_str("[] 1").unwrap();
    assert_eq!(*parsed.get("").unwrap(), Value::Num(num("1")));
    let parsed = parse_str("[ké\n] 1").unwrap();
    assert_eq!(*parsed.get("ké\n").unwrap(), Value::Num(num("1")));
}

#[test]
fn whitespace_between_entries_is_skipped() {
    let parsed = parse_str("\n\r [a] 1\n\r\n  [b] 2\n\n").unwrap();
    assert_eq!(parsed.len(), 2);
    assert_eq!(*parsed.get("a").unwrap(), Value::Num(num("1")));
    assert_eq!(*parsed.get("b").unwrap(), Value::Num(num("2")));
    assert_eq!(parse_str("").unwrap().len(), 0);
}

#[test]
fn repeated_key_keeps_the_last_value() {
    let parsed = parse_str("[a] 1\n[b] true\n[a] \"x\"\n").unwrap();
    assert_eq!(parsed.len(), 2);
    assert_eq!(*parsed.get("a").unwrap(), Value::String("x"));
    assert_eq!(*parsed.get("b").unwrap(), Value::Bool(true));
    assert!(parsed.get("c").is_none());
}

#[test]
fn nothing_is_returned_with_an_error() {
    assert_eq!(parse_str("[a] 1\n[b] 2\n?").unwrap_err(), Error::InvalidCharacter(12));
}

#[test]
fn each_variant_is_written_in_its_form() {
    let entries = [
        ("s", Value::String("hi there")),
        ("n", Value::Num(num("-1.5"))),
        ("t", Value::Bool(true)),
        ("f", Value::Bool(false)),
        ("p", Value::Vec2(Vec2 { x: num("1"), y: num("-2") })),
        ("q", Value::Vec3(Vec3 { x: num("1"), y: num("2"), z: num("3") })),
        ("v", Value::Vec(vec![num("1"), num("2"), num("3"), num("-4")])),
        ("e", Value::Empty),
    ];
    assert_eq!(
        slice_to_string(&entries),
        "[s] \"hi there\"\n[n] -1.5\n[t] true\n[f] false\n[p] 1 -2\n[q] 1 2 3\n[v] 1 2 3 -4 \n[e] \n"
    );
    assert_eq!(slice_to_string(&[]), "");
}

#[test]
fn serialized_entries_parse_back() {
    let entries = [
        ("name", Value::String("a \"quoted\" word".split('"').next().unwrap())),
        ("speed", Value::Num(num("12.75"))),
        ("alive", Value::Bool(true)),
        ("dead", Value::Bool(false)),
        ("pos", Value::Vec2(Vec2 { x: num("-1"), y: num("2") })),
        ("dir", Value::Vec3(Vec3 { x: num("0"), y: num("-0.5"), z: num("1.") })),
        ("path", Value::Vec(vec![num("1"), num("2"), num("3"), num("4"), num("-5")])),
        ("nothing", Value::Empty),
        ("é\nkey", Value::String("multi\nline é")),
    ];
    let text = slice_to_string(&entries);
    let parsed = parse_str(&text).unwrap();
    assert_eq!(parsed.len(), entries.len());
    for (key, value) in entries.iter() {
        assert_eq!(parsed.get(key).unwrap(), value);
    }
    let again = hashmap_to_string(parsed);
    assert_eq!(again, text);
}

#[test]
fn order_of_entries_does_not_change_the_mapping() {
    let forward = [("a", Value::Num(num("1"))), ("b", Value::Bool(true)), ("c", Value::Empty)];
    let backward = [("c", Value::Empty), ("b", Value::Bool(true)), ("a", Value::Num(num("1")))];
    let one_text = slice_to_string(&forward);
    let other_text = slice_to_string(&backward);
    let one = parse_str(&one_text).unwrap();
    let other = parse_str(&other_text).unwrap();
    assert_eq!(one.len(), other.len());
    for (key, value) in forward.iter() {
        assert_eq!(one.get(key).unwrap(), value);
        assert_eq!(other.get(key).unwrap(), value);
    }
}

#[test]
fn mapping_insert_overwrites_in_place() {
    let mut mapping = Mapping::new();
    assert_eq!(mapping.len(), 0);
    assert!(mapping.get("a").is_none());
    mapping.insert("a", Value::Bool(true));
    mapping.insert("b", Value::Empty);
    mapping.insert("a", Value::Bool(false));
    assert_eq!(mapping.len(), 2);
    assert_eq!(*mapping.get("a").unwrap(), Value::Bool(false));
    assert_eq!(mapping.entries(), &[("a", Value::Bool(false)), ("b", Value::Empty)][..]);
    assert_eq!(hashmap_to_string(mapping), "[a] false\n[b] \n");
}

#[test]
fn number_accepts_decimal_literals_only() {
    assert!(Number::new(false, "0").is_some());
    assert!(Number::new(true, "12.5").is_some());
    assert!(Number::new(false, ".5").is_some());
    assert!(Number::new(false, "5.").is_some());
    assert!(Number::new(false, "").is_none());
    assert!(Number::new(false, ".").is_none());
    assert!(Number::new(false, "1.2.3").is_none());
    assert!(Number::new(false, "-1").is_none());
    assert!(Number::new(false, "1e5").is_none());
    assert!(Number::new(false, "١").is_none());
    let number = Number::new(true, "3.25").unwrap();
    assert!(number.is_negative());
    assert_eq!(number.digits(), "3.25");
    assert_eq!(number.digits().parse::<f32>().unwrap(), 3.25);
}

#[test]
fn is_decimal_counts_points_and_digits() {
    assert!(is_decimal(b"123"));
    assert!(is_decimal(b"1.23"));
    assert!(!is_decimal(b"1..2"));
    assert!(!is_decimal(b"."));
    assert!(!is_decimal(b""));
    assert!(!is_decimal(b"12a"));
}

#[test]
fn byte_classes() {
    assert!(ByteClass::Key.contains(b'a'));
    assert!(ByteClass::Key.contains(b'\n'));
    assert!(!ByteClass::Key.contains(b']'));
    assert!(!ByteClass::Key.contains(b' '));
    assert!(ByteClass::Quoted.contains(b' '));
    assert!(!ByteClass::Quoted.contains(b'"'));
    assert!(ByteClass::Numeral.contains(b'0'));
    assert!(ByteClass::Numeral.contains(b'9'));
    assert!(ByteClass::Numeral.contains(b'.'));
    assert!(!ByteClass::Numeral.contains(b'-'));
    assert!(!ByteClass::Numeral.contains(b'/'));
    assert!(!ByteClass::Numeral.contains(b':'));
    assert!(ByteClass::Space.contains(b' '));
    assert!(!ByteClass::Space.contains(b'\n'));
}

#[test]
fn bytes_parse_as_text_does() {
    let parsed = parse_bytes(b"[a] -1 2 3\n[b] \"x\"").unwrap();
    assert_eq!(parsed.len(), 2);
    assert_eq!(
        *parsed.get("a").unwrap(),
        Value::Vec3(Vec3 { x: num("-1"), y: num("2"), z: num("3") })
    );
    assert_eq!(*parsed.get("b").unwrap(), Value::String("x"));
    assert_eq!(parse_bytes(b"x").unwrap_err(), Error::InvalidCharacter(0));
}

#[test]
fn bytes_that_are_not_utf8_are_rejected_where_they_start() {
    assert_eq!(parse_bytes(b"[k\xFF] 1").unwrap_err(), Error::InvalidUtf8(1));
    assert_eq!(parse_bytes(b"[k] \"a\xC3\"").unwrap_err(), Error::InvalidUtf8(5));
    assert_eq!(parse_bytes(b"\n[a] 1\n[b] \"\x80\"").unwrap_err(), Error::InvalidUtf8(12));
}

#[test]
fn an_unfinished_key_or_string_is_reported_before_its_encoding() {
    assert_eq!(parse_bytes(b"[k\xFF 1").unwrap_err(), Error::UnfinishedKey(3));
    assert_eq!(parse_bytes(b"[k] \"\xFF").unwrap_err(), Error::UnfinishedKey(6));
}

#[test]
fn bytes_outside_keys_and_strings_are_invalid_characters() {
    assert_eq!(parse_bytes(b"\xFF").unwrap_err(), Error::InvalidCharacter(0));
    assert_eq!(parse_bytes(b"[k] \xFF").unwrap_err(), Error::InvalidCharacter(4));
    assert_eq!(parse_bytes(b"[k] 1\xB2").unwrap_err(), Error::InvalidNumber(5));
}

#[test]
fn decimal_literals_are_the_digit_strings_that_read_as_floats() {
    let shapes = [
        "0", "7", "007", "12.5", "5.", ".5", "0.0", "123456789012345678901234567890", "", ".",
        "..", "1..2", "1.2.3", ".5.", "1.2.",
    ];
    for shape in shapes.iter() {
        assert_eq!(
            Number::new(false, shape).is_some(),
            shape.parse::<f32>().is_ok(),
            "{:?}",
            shape
        );
    }
}

#[test]
fn an_unsigned_number_that_starts_with_the_point_cannot_open_a_value() {
    let parsed = parse_str("[a] 1 .5\n[b] -.5\n").unwrap();
    assert_eq!(*parsed.get("a").unwrap(), Value::Vec2(Vec2 { x: num("1"), y: num(".5") }));
    assert_eq!(*parsed.get("b").unwrap(), Value::Num(num("-.5")));
    assert_eq!(parse_str("[a] .5\n").unwrap_err(), Error::InvalidCharacter(4));
    let written = slice_to_string(&[("a", Value::Num(num(".5")))]);
    assert_eq!(written, "[a] .5\n");
    assert_eq!(parse_str(&written).unwrap_err(), Error::InvalidCharacter(4));
}

#[test]
fn a_parsed_buffer_is_written_with_each_key_at_its_first_place() {
    let parsed = parse_str("[b] 1\n\n[a] true\n  [b] 2 3    \n[c]\n").unwrap_err();
    assert_eq!(parsed, Error::InvalidNumber(26));
    let parsed = parse_str("[b] 1\n\n[a] true\n  [b] 2 3\n[c]\n").unwrap();
    let written = hashmap_to_string(parsed);
    assert_eq!(written, "[b] 2 3\n[a] true\n[c] \n");
    let again = parse_str(&written).unwrap();
    assert_eq!(hashmap_to_string(again), written);
}
