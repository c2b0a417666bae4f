use winlane::numbers::{opacity_text, read_number, read_opacity, INVALID_OPACITY};

#[test]
fn opacity_percentages() {
    assert_eq!(read_opacity("85"), Ok(85));
    assert_eq!(read_opacity(" +7 "), Ok(7));
    assert_eq!(read_opacity("0"), Ok(0));
    assert_eq!(read_opacity("100"), Ok(100));
    assert_eq!(read_opacity("007"), Ok(7));
}

#[test]
fn opacity_errors() {
    for text in ["101", "-1", "-0", "abc", "", " ", "5%", "1 0", "+", "99999999999999999999"] {
        assert_eq!(read_opacity(text), Err(INVALID_OPACITY.to_string()), "{text:?}");
    }
}

#[test]
fn numbers_in_range() {
    assert_eq!(read_number("-5", "Gap", -10, 10), Ok(-5));
    assert_eq!(read_number(" 10 ", "Gap", -10, 10), Ok(10));
    assert_eq!(read_number("+3", "Gap", -10, 10), Ok(3));
    assert_eq!(read_number("-0", "Gap", 0, 10), Ok(0));
}

#[test]
fn numbers_out_of_range_or_malformed() {
    let message = "Gap: enter a whole number from -10 to 10.".to_string();
    for text in ["11", "-11", "12a", "", "--1", "+-1", "1.5", "99999999999"] {
        assert_eq!(read_number(text, "Gap", -10, 10), Err(message.clone()), "{text:?}");
    }
    assert_eq!(
        read_number("5", "Delay", 6, 2000),
        Err("Delay: enter a whole number from 6 to 2000.".to_string())
    );
}

#[test]
fn written_numbers_read_back() {
    for value in [-2_147_483_648i32, -120, -1, 0, 7, 42, 2_147_483_647] {
        assert_eq!(read_number(&value.to_string(), "N", i32::MIN, i32::MAX), Ok(value));
    }
}

#[test]
fn shown_opacity_reads_back() {
    for value in [0u8, 7, 55, 100] {
        assert_eq!(opacity_text(value), value.to_string());
        assert_eq!(read_opacity(&opacity_text(value)), Ok(value));
    }
    assert_eq!(read_opacity(&opacity_text(101)), Err(INVALID_OPACITY.to_string()));
    assert_eq!(read_opacity(&opacity_text(255)), Err(INVALID_OPACITY.to_string()));
}
