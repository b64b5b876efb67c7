use conformator::output::{command_output_text, exit_code_text};

#[test]
fn command_output_is_trimmed() {
    assert_eq!(command_output_text(b"  hello world \n"), Some("hello world".to_string()));
    assert_eq!(command_output_text(b"\t\n"), Some(String::new()));
    assert_eq!(command_output_text(b""), Some(String::new()));
    assert_eq!(command_output_text("\u{3000}wide\u{2003}".as_bytes()), Some("wide".to_string()));
    assert_eq!(command_output_text("é".as_bytes()), Some("é".to_string()));
}

#[test]
fn invalid_output_is_refused() {
    assert_eq!(command_output_text(&[0xff, 0x41]), None);
    assert_eq!(command_output_text(&[0xc3]), None);
}

#[test]
fn exit_codes_in_decimal() {
    assert_eq!(exit_code_text(Some(0)), "0");
    assert_eq!(exit_code_text(Some(127)), "127");
    assert_eq!(exit_code_text(Some(-3)), "-3");
    assert_eq!(exit_code_text(Some(i32::MIN)), "-2147483648");
    assert_eq!(exit_code_text(Some(i32::MAX)), "2147483647");
    assert_eq!(exit_code_text(None), "0");
}
