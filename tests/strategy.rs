use rtail::strategy::FileReadStrategy;

fn pick(b: &str, l: &str) -> FileReadStrategy {
    FileReadStrategy::pick(b.to_string(), l.to_string())
}

#[test]
fn invalid_byte_spec_is_invalid() {
    assert_eq!(
        pick("abc", "10"),
        FileReadStrategy::Invalid("abc: invalid number of bytes".to_string())
    );
}

#[test]
fn invalid_line_spec_is_invalid() {
    assert_eq!(
        pick("10", "xyz"),
        FileReadStrategy::Invalid("xyz: invalid number of lines".to_string())
    );
}

#[test]
fn zero_specs_give_default_ten_lines() {
    assert_eq!(pick("0", "0"), FileReadStrategy::LastLines(10));
}

#[test]
fn precedence_from_byte_first() {
    assert_eq!(pick("+7", "+3"), FileReadStrategy::FromByte(7));
    assert_eq!(pick("7", "+3"), FileReadStrategy::LastBytes(7));
    assert_eq!(pick("0", "+3"), FileReadStrategy::FromLine(3));
    assert_eq!(pick("+0", "3"), FileReadStrategy::LastLines(3));
}

#[test]
fn pick_is_deterministic() {
    for (b, l) in [("12", "0"), ("+4", "9"), ("0", "+0"), ("x", "1"), ("1", "-1")] {
        assert_eq!(pick(b, l), pick(b, l));
    }
}

#[test]
fn converter_parses_offsets() {
    assert_eq!(FileReadStrategy::from_last_converter("+15".to_string()), Some((15, 0)));
    assert_eq!(FileReadStrategy::from_last_converter("15".to_string()), Some((0, 15)));
    assert_eq!(FileReadStrategy::from_last_converter("007".to_string()), Some((0, 7)));
    assert_eq!(FileReadStrategy::from_last_converter("".to_string()), None);
    assert_eq!(FileReadStrategy::from_last_converter("+".to_string()), None);
    assert_eq!(FileReadStrategy::from_last_converter("-3".to_string()), None);
    assert_eq!(FileReadStrategy::from_last_converter("3a".to_string()), None);
    assert_eq!(FileReadStrategy::from_last_converter("++3".to_string()), None);
}

#[test]
fn converter_edges_of_usize() {
    let max = usize::MAX.to_string();
    assert_eq!(FileReadStrategy::from_last_converter(max.clone()), Some((0, usize::MAX)));
    let over = format!("{}0", max);
    assert_eq!(FileReadStrategy::from_last_converter(over), None);
    assert!(matches!(pick("18446744073709551616", "0"), FileReadStrategy::Invalid(_)));
}
